//! The octree that splits the particle set into subdomains. Positions are
//! integer coordinates in units of a fixed fraction of a grid cell, relative
//! to the grid's origin; every node covers a box of whole grid cells, and
//! holds the particles that lie in that box inflated by the ghost margin.

use vstd::pervasive::VecAdditionalExecFns;
use vstd::prelude::*;

use crate::grid::{GridIndex, UniformGrid, MAX_CELLS_PER_DIM};
use crate::mesh::SurfacePatch;

verus! {

/// Largest number of position units along one edge of a grid cell.
pub const MAX_UNITS_PER_CELL: i64 = 1048576;

/// Largest ghost margin, in position units.
pub const MAX_MARGIN: i64 = 1099511627776;

/// An axis-aligned box in position units; it holds the points `p` with
/// `min <= p < max` on every axis.
#[derive(Clone, Copy, Debug)]
pub struct Aabb {
    pub min: GridIndex,
    pub max: GridIndex,
}

/// Whether box `b` holds point `p`.
pub open spec fn aabb_contains(b: Aabb, p: GridIndex) -> bool {
    &&& b.min[0] <= p[0] < b.max[0]
    &&& b.min[1] <= p[1] < b.max[1]
    &&& b.min[2] <= p[2] < b.max[2]
}

/// Box `b` grown by `m` on every side.
pub open spec fn inflated(b: Aabb, m: int) -> Aabb {
    Aabb {
        min: [(b.min[0] - m) as i64, (b.min[1] - m) as i64, (b.min[2] - m) as i64],
        max: [(b.max[0] + m) as i64, (b.max[1] + m) as i64, (b.max[2] + m) as i64],
    }
}

/// Whether box `c` lies inside box `b`.
pub open spec fn aabb_within(c: Aabb, b: Aabb) -> bool {
    &&& b.min[0] <= c.min[0] && c.max[0] <= b.max[0]
    &&& b.min[1] <= c.min[1] && c.max[1] <= b.max[1]
    &&& b.min[2] <= c.min[2] && c.max[2] <= b.max[2]
}

impl Aabb {
    /// Whether this box holds point `p`.
    pub fn contains_point(&self, p: GridIndex) -> (r: bool)
        ensures
            r == aabb_contains(*self, p),
    {
        self.min[0] <= p[0] && p[0] < self.max[0] && self.min[1] <= p[1] && p[1] < self.max[1]
            && self.min[2] <= p[2] && p[2] < self.max[2]
    }
}

/// How the grid's cells relate to position units, and how far ghost
/// particles reach into a subdomain from outside it.
#[derive(Clone, Copy, Debug)]
pub struct DecompositionGeometry {
    pub grid: UniformGrid,
    pub units_per_cell: i64,
    pub margin: i64,
}

impl DecompositionGeometry {
    pub open spec fn wf(&self) -> bool {
        &&& self.grid.wf()
        &&& 0 < self.units_per_cell <= MAX_UNITS_PER_CELL
        &&& 0 <= self.margin <= MAX_MARGIN
    }

    /// The box, in position units, of the cells between grid points `lo`
    /// and `hi`.
    pub open spec fn cell_box(&self, lo: GridIndex, hi: GridIndex) -> Aabb {
        let u = self.units_per_cell;
        Aabb {
            min: [(lo[0] * u) as i64, (lo[1] * u) as i64, (lo[2] * u) as i64],
            max: [(hi[0] * u) as i64, (hi[1] * u) as i64, (hi[2] * u) as i64],
        }
    }

    /// The box from which a node between `lo` and `hi` takes its particles.
    pub open spec fn ghost_box(&self, lo: GridIndex, hi: GridIndex) -> Aabb {
        inflated(self.cell_box(lo, hi), self.margin as int)
    }
}

/// Whether `lo` and `hi` bound a non-empty box of cells of grid `g`.
pub open spec fn corners_in_grid(g: UniformGrid, lo: GridIndex, hi: GridIndex) -> bool {
    &&& 0 <= lo[0] < hi[0] <= g.n_cells_per_dim[0]
    &&& 0 <= lo[1] < hi[1] <= g.n_cells_per_dim[1]
    &&& 0 <= lo[2] < hi[2] <= g.n_cells_per_dim[2]
}

/// The indices below `n` of the particles whose position lies in `b`, in
/// increasing order.
pub open spec fn particles_in(pos: Seq<GridIndex>, b: Aabb, n: nat) -> Seq<usize>
    decreases n,
{
    if n == 0 {
        seq![]
    } else {
        let s = particles_in(pos, b, (n - 1) as nat);
        if aabb_contains(b, pos[n - 1]) {
            s.push((n - 1) as usize)
        } else {
            s
        }
    }
}

/// The elements of `s` whose position lies in `b`, in the order of `s`.
pub open spec fn filtered(s: Seq<usize>, pos: Seq<GridIndex>, b: Aabb) -> Seq<usize>
    decreases s.len(),
{
    if s.len() == 0 {
        seq![]
    } else {
        let f = filtered(s.drop_last(), pos, b);
        if aabb_contains(b, pos[s.last() as int]) {
            f.push(s.last())
        } else {
            f
        }
    }
}

/// Taking from the particles in a box those in a smaller box gives the
/// particles in the smaller box.
proof fn lemma_filter_particles_in(pos: Seq<GridIndex>, b: Aabb, c: Aabb, n: nat)
    requires
        aabb_within(c, b),
        n <= usize::MAX,
    ensures
        filtered(particles_in(pos, b, n), pos, c) == particles_in(pos, c, n),
    decreases n,
{
    if n > 0 {
        lemma_filter_particles_in(pos, b, c, (n - 1) as nat);
        let s = particles_in(pos, b, (n - 1) as nat);
        if aabb_contains(b, pos[n - 1]) {
            let x = (n - 1) as usize;
            assert(s.push(x).drop_last() =~= s);
            assert(s.push(x).last() == x);
        }
    }
}

/// Every index of `particles_in` is a particle below `n` in the box.
pub proof fn lemma_particles_in_members(pos: Seq<GridIndex>, b: Aabb, n: nat)
    requires
        n <= pos.len(),
        n <= usize::MAX,
    ensures
        forall|k: int|
            0 <= k < particles_in(pos, b, n).len() ==> {
                &&& (#[trigger] particles_in(pos, b, n)[k]) < n
                &&& aabb_contains(b, pos[particles_in(pos, b, n)[k] as int])
            },
    decreases n,
{
    if n > 0 {
        lemma_particles_in_members(pos, b, (n - 1) as nat);
        let s = particles_in(pos, b, (n - 1) as nat);
        let t = particles_in(pos, b, n);
        assert forall|k: int| 0 <= k < t.len() implies {
            &&& (#[trigger] t[k]) < n
            &&& aabb_contains(b, pos[t[k] as int])
        } by {
            if k < s.len() {
                assert(t[k] == s[k]);
            }
        }
    }
}

/// A particle below `n` in the box is among `particles_in`.
pub proof fn lemma_particles_in_complete(pos: Seq<GridIndex>, b: Aabb, n: nat, j: int)
    requires
        0 <= j < n,
        n <= pos.len(),
        n <= usize::MAX,
        aabb_contains(b, pos[j]),
    ensures
        particles_in(pos, b, n).contains(j as usize),
    decreases n,
{
    let s = particles_in(pos, b, (n - 1) as nat);
    if j == n - 1 {
        assert(s.push(j as usize)[s.len() as int] == j as usize);
    } else {
        lemma_particles_in_complete(pos, b, (n - 1) as nat, j);
        let k = choose|k: int| 0 <= k < s.len() && s[k] == j as usize;
        if aabb_contains(b, pos[n - 1]) {
            assert(s.push((n - 1) as usize)[k] == j as usize);
        }
    }
}

/// What a node of the octree holds: nothing (an internal node before
/// stitching), the indices of its particles (a leaf before
/// reconstruction), or a finished surface patch.
#[derive(Debug)]
pub enum NodeData<V> {
    Empty,
    ParticleSet(Vec<usize>),
    SurfacePatch(SurfacePatch<V>),
}

/// A node of the octree: the box of grid cells between the grid points
/// `min_corner` and `max_corner`, its depth below the root, the index of
/// the first of its eight children in the node list, and its payload.
#[derive(Debug)]
pub struct OctreeNode<V> {
    pub min_corner: GridIndex,
    pub max_corner: GridIndex,
    pub depth: usize,
    pub children: Option<usize>,
    pub data: NodeData<V>,
}

/// When a leaf is split further: while it holds more than
/// `max_particles_per_leaf` particles and is above `max_depth`.
#[derive(Clone, Copy, Debug)]
pub struct SubdivisionCriterion {
    pub max_particles_per_leaf: usize,
    pub max_depth: usize,
}

/// The octree: its geometry and its nodes, the root first, the eight
/// children of a node stored one after another behind their parent.
#[derive(Debug)]
pub struct Octree<V> {
    pub geometry: DecompositionGeometry,
    pub nodes: Vec<OctreeNode<V>>,
}

/// The grid point halfway (rounded down) between `lo` and `hi` on axis `d`.
pub open spec fn midpoint(lo: GridIndex, hi: GridIndex, d: int) -> i64 {
    (lo[d] + (hi[d] - lo[d]) / 2) as i64
}

/// Whether octant `o` lies on the upper side of axis `d`.
pub open spec fn octant_upper(o: int, d: int) -> bool {
    if d == 0 {
        o % 2 == 1
    } else if d == 1 {
        (o / 2) % 2 == 1
    } else {
        (o / 4) % 2 == 1
    }
}

/// The lower corner of octant `o` of the box between `lo` and `hi`.
pub open spec fn octant_min(lo: GridIndex, hi: GridIndex, o: int) -> GridIndex {
    [
        if octant_upper(o, 0) { midpoint(lo, hi, 0) } else { lo[0] },
        if octant_upper(o, 1) { midpoint(lo, hi, 1) } else { lo[1] },
        if octant_upper(o, 2) { midpoint(lo, hi, 2) } else { lo[2] },
    ]
}

/// The upper corner of octant `o` of the box between `lo` and `hi`.
pub open spec fn octant_max(lo: GridIndex, hi: GridIndex, o: int) -> GridIndex {
    [
        if octant_upper(o, 0) { hi[0] } else { midpoint(lo, hi, 0) },
        if octant_upper(o, 1) { hi[1] } else { midpoint(lo, hi, 1) },
        if octant_upper(o, 2) { hi[2] } else { midpoint(lo, hi, 2) },
    ]
}

/// Whether `child` is octant `o` of `parent`, one level deeper.
pub open spec fn is_octant<V>(parent: OctreeNode<V>, child: OctreeNode<V>, o: int) -> bool {
    &&& child.min_corner == octant_min(parent.min_corner, parent.max_corner, o)
    &&& child.max_corner == octant_max(parent.min_corner, parent.max_corner, o)
    &&& child.depth == parent.depth + 1
}

/// Whether a box of cells is at least two cells wide on every axis.
pub open spec fn splittable(lo: GridIndex, hi: GridIndex) -> bool {
    &&& hi[0] - lo[0] >= 2
    &&& hi[1] - lo[1] >= 2
    &&& hi[2] - lo[2] >= 2
}

impl<V> Octree<V> {
    /// The particles, of positions `pos`, that node `i` takes in.
    pub open spec fn node_particles(&self, pos: Seq<GridIndex>, i: int) -> Seq<usize> {
        let node = self.nodes@[i];
        particles_in(pos, self.geometry.ghost_box(node.min_corner, node.max_corner), pos.len())
    }

    /// Node `i` lies in the grid, and its children, if any, are its eight
    /// octants, stored behind it.
    pub open spec fn node_shape_ok(&self, i: int) -> bool {
        let node = self.nodes@[i];
        &&& corners_in_grid(self.geometry.grid, node.min_corner, node.max_corner)
        &&& node.children is Some ==> {
            let c = node.children->0 as int;
            &&& i < c
            &&& c + 8 <= self.nodes@.len()
            &&& forall|o: int| 0 <= o < 8 ==> is_octant(node, #[trigger] self.nodes@[c + o], o)
        }
    }

    /// The root covers the whole grid and every node is well shaped.
    pub open spec fn wf(&self) -> bool {
        &&& self.geometry.wf()
        &&& self.nodes@.len() >= 1
        &&& self.nodes@[0].min_corner == [0i64, 0i64, 0i64]
        &&& self.nodes@[0].max_corner == self.geometry.grid.n_cells_per_dim
        &&& self.nodes@[0].depth == 0
        &&& forall|i: int| 0 <= i < self.nodes@.len() ==> #[trigger] self.node_shape_ok(i)
        &&& self.children_ordered()
    }

    /// The children of earlier nodes are stored before those of later
    /// ones, so that no node has two parents.
    pub open spec fn children_ordered(&self) -> bool {
        forall|a: int, b: int|
            0 <= a < b < self.nodes@.len() && (#[trigger] self.nodes@[a]).children is Some && (
            #[trigger] self.nodes@[b]).children is Some ==> self.nodes@[a].children->0 + 8
                <= self.nodes@[b].children->0
    }

    /// Node `j` is a child of an earlier node.
    pub open spec fn has_parent(&self, j: int) -> bool {
        exists|k: int|
            0 <= k < j && (#[trigger] self.nodes@[k]).children is Some && self.nodes@[k].children->0
                <= j < self.nodes@[k].children->0 + 8
    }

    /// Every node but the root is a child of an earlier node: the tree has
    /// no nodes that the root does not reach.
    pub open spec fn all_reachable(&self) -> bool {
        forall|j: int| 1 <= j < self.nodes@.len() ==> #[trigger] self.has_parent(j)
    }

    /// Whether node `i` is to be split under `crit`.
    pub open spec fn should_split(&self, pos: Seq<GridIndex>, crit: SubdivisionCriterion, i: int) -> bool {
        let node = self.nodes@[i];
        &&& self.node_particles(pos, i).len() > crit.max_particles_per_leaf
        &&& splittable(node.min_corner, node.max_corner)
        &&& node.depth < crit.max_depth
    }

    /// Node `i` is as the subdivision leaves it: split, with no payload,
    /// exactly when the criterion asks for it, and otherwise a leaf that
    /// holds the particles of its ghost box.
    pub open spec fn node_subdivided(&self, pos: Seq<GridIndex>, crit: SubdivisionCriterion, i: int) -> bool {
        let node = self.nodes@[i];
        &&& node.children is Some <==> self.should_split(pos, crit, i)
        &&& node.children is Some ==> node.data is Empty
        &&& node.children is None ==> node.data is ParticleSet
        &&& node.data is ParticleSet ==> node.data->ParticleSet_0@ == self.node_particles(pos, i)
    }
}

/// The indices of all particles whose position lies in `b`, in increasing
/// order.
pub fn particles_in_box(positions: &[GridIndex], b: &Aabb) -> (r: Vec<usize>)
    ensures
        r@ == particles_in(positions@, *b, positions@.len()),
{
    let mut r: Vec<usize> = Vec::new();
    let mut j: usize = 0;
    while j < positions.len()
        invariant
            j <= positions@.len(),
            r@ == particles_in(positions@, *b, j as nat),
        decreases positions@.len() - j,
    {
        if b.contains_point(positions[j]) {
            r.push(j);
        }
        j = j + 1;
    }
    r
}

/// The elements of `set` whose position lies in `b`, in the order of `set`.
pub fn filter_particles(set: &Vec<usize>, positions: &[GridIndex], b: &Aabb) -> (r: Vec<usize>)
    requires
        forall|k: int| 0 <= k < set@.len() ==> (#[trigger] set@[k]) < positions@.len(),
    ensures
        r@ == filtered(set@, positions@, *b),
{
    let mut r: Vec<usize> = Vec::new();
    let mut k: usize = 0;
    while k < set.len()
        invariant
            k <= set@.len(),
            forall|k: int| 0 <= k < set@.len() ==> (#[trigger] set@[k]) < positions@.len(),
            r@ == filtered(set@.take(k as int), positions@, *b),
        decreases set@.len() - k,
    {
        let idx = set[k];
        assert(set@.take(k + 1).drop_last() =~= set@.take(k as int));
        assert(set@.take(k + 1).last() == idx);
        if b.contains_point(positions[idx]) {
            r.push(idx);
        }
        k = k + 1;
    }
    assert(set@.take(k as int) =~= set@);
    r
}

/// Multiplying a grid coordinate of at most `MAX_CELLS_PER_DIM` by a cell
/// width of at most `MAX_UNITS_PER_CELL` stays within these bounds, and
/// keeps order.
proof fn lemma_scale(a: int, b: int, u: int)
    requires
        0 <= a <= b <= MAX_CELLS_PER_DIM,
        0 < u <= MAX_UNITS_PER_CELL,
    ensures
        0 <= a * u <= b * u <= MAX_MARGIN,
{
    assert(0 <= a * u <= b * u) by (nonlinear_arith)
        requires
            0 <= a <= b,
            0 < u,
    ;
    assert(b * u <= MAX_CELLS_PER_DIM * MAX_UNITS_PER_CELL) by (nonlinear_arith)
        requires
            0 <= b <= MAX_CELLS_PER_DIM,
            0 < u <= MAX_UNITS_PER_CELL,
    ;
}

impl DecompositionGeometry {
    /// The box from which a node between `lo` and `hi` takes its particles.
    pub fn node_ghost_box(&self, lo: GridIndex, hi: GridIndex) -> (r: Aabb)
        requires
            self.wf(),
            corners_in_grid(self.grid, lo, hi),
        ensures
            r == self.ghost_box(lo, hi),
    {
        let u = self.units_per_cell;
        let m = self.margin;
        proof {
            lemma_scale(lo[0] as int, hi[0] as int, u as int);
            lemma_scale(lo[1] as int, hi[1] as int, u as int);
            lemma_scale(lo[2] as int, hi[2] as int, u as int);
        }
        Aabb {
            min: [lo[0] * u - m, lo[1] * u - m, lo[2] * u - m],
            max: [hi[0] * u + m, hi[1] * u + m, hi[2] * u + m],
        }
    }
}

impl DecompositionGeometry {
    /// The box, in position units, of the cells between `lo` and `hi`:
    /// the region that a node owns.
    pub fn node_cell_box(&self, lo: GridIndex, hi: GridIndex) -> (r: Aabb)
        requires
            self.wf(),
            corners_in_grid(self.grid, lo, hi),
        ensures
            r == self.cell_box(lo, hi),
    {
        let u = self.units_per_cell;
        proof {
            lemma_scale(lo[0] as int, hi[0] as int, u as int);
            lemma_scale(lo[1] as int, hi[1] as int, u as int);
            lemma_scale(lo[2] as int, hi[2] as int, u as int);
        }
        Aabb { min: [lo[0] * u, lo[1] * u, lo[2] * u], max: [hi[0] * u, hi[1] * u, hi[2] * u] }
    }
}

/// The ghost box of an octant lies in the ghost box of its parent.
proof fn lemma_octant_ghost_box_within(geo: DecompositionGeometry, lo: GridIndex, hi: GridIndex, o: int)
    requires
        geo.wf(),
        corners_in_grid(geo.grid, lo, hi),
        splittable(lo, hi),
        0 <= o < 8,
    ensures
        corners_in_grid(geo.grid, octant_min(lo, hi, o), octant_max(lo, hi, o)),
        aabb_within(
            geo.ghost_box(octant_min(lo, hi, o), octant_max(lo, hi, o)),
            geo.ghost_box(lo, hi),
        ),
{
    let clo = octant_min(lo, hi, o);
    let chi = octant_max(lo, hi, o);
    let u = geo.units_per_cell as int;
    lemma_scale(lo[0] as int, clo[0] as int, u);
    lemma_scale(clo[0] as int, chi[0] as int, u);
    lemma_scale(chi[0] as int, hi[0] as int, u);
    lemma_scale(lo[1] as int, clo[1] as int, u);
    lemma_scale(clo[1] as int, chi[1] as int, u);
    lemma_scale(chi[1] as int, hi[1] as int, u);
    lemma_scale(lo[2] as int, clo[2] as int, u);
    lemma_scale(clo[2] as int, chi[2] as int, u);
    lemma_scale(chi[2] as int, hi[2] as int, u);
}

/// The corners of octant `o` of the box between `lo` and `hi`.
pub fn octant_corners(lo: GridIndex, hi: GridIndex, o: usize) -> (r: (GridIndex, GridIndex))
    requires
        0 <= lo[0] <= hi[0] <= MAX_CELLS_PER_DIM,
        0 <= lo[1] <= hi[1] <= MAX_CELLS_PER_DIM,
        0 <= lo[2] <= hi[2] <= MAX_CELLS_PER_DIM,
        o < 8,
    ensures
        r.0 == octant_min(lo, hi, o as int),
        r.1 == octant_max(lo, hi, o as int),
{
    let mid: GridIndex = [
        lo[0] + (hi[0] - lo[0]) / 2,
        lo[1] + (hi[1] - lo[1]) / 2,
        lo[2] + (hi[2] - lo[2]) / 2,
    ];
    let ux = o % 2 == 1;
    let uy = (o / 2) % 2 == 1;
    let uz = (o / 4) % 2 == 1;
    let cmin: GridIndex = [
        if ux { mid[0] } else { lo[0] },
        if uy { mid[1] } else { lo[1] },
        if uz { mid[2] } else { lo[2] },
    ];
    let cmax: GridIndex = [
        if ux { hi[0] } else { mid[0] },
        if uy { hi[1] } else { mid[1] },
        if uz { hi[2] } else { mid[2] },
    ];
    (cmin, cmax)
}

/// Whether two nodes cover the same cells at the same depth.
pub open spec fn same_frame<V>(a: OctreeNode<V>, b: OctreeNode<V>) -> bool {
    &&& a.min_corner == b.min_corner
    &&& a.max_corner == b.max_corner
    &&& a.depth == b.depth
}

impl<V> Octree<V> {
    /// Node `i` is a leaf at depth `d` that holds the particles of its
    /// ghost box and has not been looked at by the subdivision yet.
    pub open spec fn node_fresh(&self, pos: Seq<GridIndex>, i: int, d: int) -> bool {
        let node = self.nodes@[i];
        &&& node.children is None
        &&& node.depth == d
        &&& node.data is ParticleSet
        &&& node.data->ParticleSet_0@ == self.node_particles(pos, i)
    }

    /// Builds the octree of `geometry` over the particles at `positions`:
    /// the root covers the whole grid and takes the particles in its ghost
    /// box; a node is split into its eight octants, each taking from its
    /// parent the particles in its own ghost box, exactly where `criterion`
    /// asks for it.
    pub fn new_subdivided(
        geometry: DecompositionGeometry,
        positions: &[GridIndex],
        criterion: SubdivisionCriterion,
    ) -> (r: Octree<V>)
        requires
            geometry.wf(),
        ensures
            r.wf(),
            r.all_reachable(),
            r.geometry == geometry,
            forall|i: int|
                0 <= i < r.nodes@.len() ==> #[trigger] r.node_subdivided(positions@, criterion, i),
    {
        let ghost pos = positions@;
        let n_particles = positions.len();
        assert(pos.len() == n_particles);
        let n = geometry.grid.n_cells_per_dim;
        let root_lo: GridIndex = [0, 0, 0];
        let root_box = geometry.node_ghost_box(root_lo, n);
        let root_set = particles_in_box(positions, &root_box);
        let mut tree: Octree<V> = Octree {
            geometry,
            nodes: vec![
                OctreeNode {
                    min_corner: root_lo,
                    max_corner: n,
                    depth: 0,
                    children: None,
                    data: NodeData::ParticleSet(root_set),
                },
            ],
        };
        assert(tree.node_shape_ok(0));
        let mut level_start: usize = 0;
        let mut level_end: usize = 1;
        let ghost mut level: int = 0;
        while level_start < level_end
            invariant
                tree.wf(),
                tree.all_reachable(),
                tree.geometry == geometry,
                pos == positions@,
                pos.len() <= usize::MAX,
                level_start <= level_end == tree.nodes@.len(),
                level_start < level_end ==> 0 <= level <= criterion.max_depth,
                forall|j: int|
                    0 <= j < level_start ==> #[trigger] tree.node_subdivided(pos, criterion, j),
                forall|j: int|
                    level_start <= j < level_end ==> #[trigger] tree.node_fresh(pos, j, level),
            decreases criterion.max_depth + 1 - level,
        {
            let mut i: usize = level_start;
            while i < level_end
                invariant
                    tree.wf(),
                    tree.all_reachable(),
                    tree.geometry == geometry,
                    pos == positions@,
                    pos.len() <= usize::MAX,
                    level_start <= i <= level_end <= tree.nodes@.len(),
                    0 <= level <= criterion.max_depth,
                    tree.nodes@.len() > level_end ==> level < criterion.max_depth,
                    forall|j: int| 0 <= j < i ==> #[trigger] tree.node_subdivided(pos, criterion, j),
                    forall|j: int| i <= j < level_end ==> #[trigger] tree.node_fresh(pos, j, level),
                    forall|j: int|
                        level_end <= j < tree.nodes@.len() ==> #[trigger] tree.node_fresh(
                            pos,
                            j,
                            level + 1,
                        ),
                decreases level_end - i,
            {
                split_node(&mut tree, positions, criterion, i, level_end, Ghost(level));
                i = i + 1;
            }
            level_start = level_end;
            level_end = tree.nodes.len();
            proof {
                level = level + 1;
            }
        }
        tree
    }
}

/// Looks at node `i` of the level that ends at `level_end`: splits it into
/// its eight octants, appended to the node list, if the criterion asks for
/// it, and leaves it a leaf otherwise.
fn split_node<V>(
    tree: &mut Octree<V>,
    positions: &[GridIndex],
    criterion: SubdivisionCriterion,
    i: usize,
    level_end: usize,
    Ghost(level): Ghost<int>,
)
    requires
        old(tree).wf(),
        old(tree).all_reachable(),
        positions@.len() <= usize::MAX,
        i < level_end <= old(tree).nodes@.len(),
        0 <= level <= criterion.max_depth,
        old(tree).nodes@.len() > level_end ==> level < criterion.max_depth,
        forall|j: int| 0 <= j < i ==> #[trigger] old(tree).node_subdivided(positions@, criterion, j),
        forall|j: int| i <= j < level_end ==> #[trigger] old(tree).node_fresh(positions@, j, level),
        forall|j: int|
            level_end <= j < old(tree).nodes@.len() ==> #[trigger] old(tree).node_fresh(
                positions@,
                j,
                level + 1,
            ),
    ensures
        final(tree).wf(),
        final(tree).all_reachable(),
        final(tree).geometry == old(tree).geometry,
        level_end <= final(tree).nodes@.len(),
        final(tree).nodes@.len() > level_end ==> level < criterion.max_depth,
        forall|j: int| 0 <= j <= i ==> #[trigger] final(tree).node_subdivided(positions@, criterion, j),
        forall|j: int| i < j < level_end ==> #[trigger] final(tree).node_fresh(positions@, j, level),
        forall|j: int|
            level_end <= j < final(tree).nodes@.len() ==> #[trigger] final(tree).node_fresh(
                positions@,
                j,
                level + 1,
            ),
{
    let ghost pos = positions@;
    let ghost old_nodes = tree.nodes@;
    let geometry = tree.geometry;
    let lo = tree.nodes[i].min_corner;
    let hi = tree.nodes[i].max_corner;
    let depth = tree.nodes[i].depth;
    assert(tree.node_fresh(pos, i as int, level));
    assert(tree.node_shape_ok(i as int));
    let split = match &tree.nodes[i].data {
        NodeData::ParticleSet(set) => set.len() > criterion.max_particles_per_leaf && hi[0] - lo[0]
            >= 2 && hi[1] - lo[1] >= 2 && hi[2] - lo[2] >= 2 && depth < criterion.max_depth,
        _ => false,
    };
    if !split {
        assert(tree.node_subdivided(pos, criterion, i as int));
        return;
    }
    let ghost parent_box = geometry.ghost_box(lo, hi);
    proof {
        lemma_particles_in_members(pos, parent_box, pos.len());
    }
    let mut kids: Vec<OctreeNode<V>> = Vec::new();
    let mut o: usize = 0;
    while o < 8
        invariant
            o <= 8,
            kids@.len() == o,
            geometry.wf(),
            corners_in_grid(geometry.grid, lo, hi),
            splittable(lo, hi),
            depth < criterion.max_depth,
            pos == positions@,
            pos.len() <= usize::MAX,
            parent_box == geometry.ghost_box(lo, hi),
            tree.nodes@ == old_nodes,
            i < old_nodes.len(),
            tree.nodes@[i as int].data is ParticleSet,
            tree.nodes@[i as int].data->ParticleSet_0@ == particles_in(pos, parent_box, pos.len()),
            forall|k: int|
                0 <= k < particles_in(pos, parent_box, pos.len()).len() ==> (
                #[trigger] particles_in(pos, parent_box, pos.len())[k]) < pos.len(),
            forall|q: int|
                0 <= q < o ==> {
                    &&& (#[trigger] kids@[q]).min_corner == octant_min(lo, hi, q)
                    &&& kids@[q].max_corner == octant_max(lo, hi, q)
                    &&& kids@[q].depth == depth + 1
                    &&& kids@[q].children is None
                    &&& kids@[q].data is ParticleSet
                    &&& kids@[q].data->ParticleSet_0@ == particles_in(
                        pos,
                        geometry.ghost_box(octant_min(lo, hi, q), octant_max(lo, hi, q)),
                        pos.len(),
                    )
                },
        decreases 8 - o,
    {
        let (clo, chi) = octant_corners(lo, hi, o);
        proof {
            lemma_octant_ghost_box_within(geometry, lo, hi, o as int);
            lemma_filter_particles_in(pos, parent_box, geometry.ghost_box(clo, chi), pos.len());
        }
        let b = geometry.node_ghost_box(clo, chi);
        let set = match &tree.nodes[i].data {
            NodeData::ParticleSet(s) => filter_particles(s, positions, &b),
            _ => Vec::new(),
        };
        kids.push(
            OctreeNode {
                min_corner: clo,
                max_corner: chi,
                depth: depth + 1,
                children: None,
                data: NodeData::ParticleSet(set),
            },
        );
        o = o + 1;
    }
    let first = tree.nodes.len();
    let ghost kids_seq = kids@;
    tree.nodes.append(&mut kids);
    let ghost mid_nodes = tree.nodes@;
    tree.nodes.set(
        i,
        OctreeNode {
            min_corner: lo,
            max_corner: hi,
            depth,
            children: Some(first),
            data: NodeData::Empty,
        },
    );
    proof {
        let nodes = tree.nodes@;
        assert forall|j: int| 0 <= j < old_nodes.len() implies same_frame(
            #[trigger] nodes[j],
            old_nodes[j],
        ) && (j != i ==> nodes[j] == old_nodes[j]) by {
            assert(nodes[j] == mid_nodes.update(i as int, nodes[i as int])[j]);
        }
        assert forall|j: int| 0 <= j < nodes.len() implies #[trigger] tree.node_shape_ok(j) by {
            if j < old_nodes.len() {
                assert(old(tree).node_shape_ok(j));
                if j != i && nodes[j].children is Some {
                    let c = nodes[j].children->0 as int;
                    assert forall|q: int| 0 <= q < 8 implies is_octant(
                        nodes[j],
                        #[trigger] nodes[c + q],
                        q,
                    ) by {
                        assert(is_octant(old_nodes[j], old_nodes[c + q], q));
                    }
                }
                if j == i {
                    assert forall|q: int| 0 <= q < 8 implies is_octant(
                        nodes[j],
                        #[trigger] nodes[first + q],
                        q,
                    ) by {
                        assert(nodes[first + q] == kids_seq[q]);
                    }
                }
            } else {
                let q = j - first;
                assert(nodes[j] == kids_seq[q]);
                lemma_octant_ghost_box_within(geometry, lo, hi, q);
            }
        }
        assert(tree.children_ordered()) by {
            assert forall|a: int, b: int|
                0 <= a < b < nodes.len() && (#[trigger] nodes[a]).children is Some && (
                #[trigger] nodes[b]).children is Some implies nodes[a].children->0 + 8
                <= nodes[b].children->0 by {
                if b < old_nodes.len() && b != i {
                    if a != i {
                        assert(old_nodes[a] == nodes[a] && old_nodes[b] == nodes[b]);
                    } else if b < level_end {
                        assert(old(tree).node_fresh(pos, b, level));
                    } else {
                        assert(old(tree).node_fresh(pos, b, level + 1));
                    }
                } else if b == i {
                    assert(old(tree).node_shape_ok(a));
                } else {
                    assert(nodes[b] == kids_seq[b - first]);
                }
            }
        }
        assert(tree.wf()) by {
            assert(same_frame(nodes[0], old_nodes[0]));
        }
        assert forall|j: int| 1 <= j < nodes.len() implies #[trigger] tree.has_parent(j) by {
            if j < old_nodes.len() {
                assert(old(tree).has_parent(j));
                let k = choose|k: int|
                    0 <= k < j && (#[trigger] old_nodes[k]).children is Some && old_nodes[k].children->0
                        <= j < old_nodes[k].children->0 + 8;
                assert(old(tree).node_fresh(pos, i as int, level));
                assert(k != i);
                assert(nodes[k] == old_nodes[k]);
            } else {
                assert(nodes[i as int].children == Some(first));
            }
        }
        assert forall|j: int| 0 <= j <= i implies #[trigger] tree.node_subdivided(
            pos,
            criterion,
            j,
        ) by {
            assert(same_frame(nodes[j], old_nodes[j]));
            if j < i {
                assert(old(tree).node_subdivided(pos, criterion, j));
            }
        }
        assert forall|j: int| i < j < level_end implies #[trigger] tree.node_fresh(pos, j, level) by {
            assert(old(tree).node_fresh(pos, j, level));
        }
        assert forall|j: int| level_end <= j < nodes.len() implies #[trigger] tree.node_fresh(
            pos,
            j,
            level + 1,
        ) by {
            if j < old_nodes.len() {
                assert(old(tree).node_fresh(pos, j, level + 1));
            } else {
                assert(nodes[j] == kids_seq[j - first]);
            }
        }
    }
}

/// The cells of a split node are shared out among its eight octants: a
/// point in the cells of the node lies in the cells of exactly one octant,
/// so that exactly one child owns each particle that its parent owns.
pub proof fn lemma_octants_partition(geo: DecompositionGeometry, lo: GridIndex, hi: GridIndex, p: GridIndex)
    requires
        geo.wf(),
        corners_in_grid(geo.grid, lo, hi),
        aabb_contains(geo.cell_box(lo, hi), p),
    ensures
        exists|o: int|
            0 <= o < 8 && aabb_contains(
                geo.cell_box(octant_min(lo, hi, o), octant_max(lo, hi, o)),
                p,
            ),
        forall|o1: int, o2: int|
            0 <= o1 < 8 && 0 <= o2 < 8 && aabb_contains(
                #[trigger] geo.cell_box(octant_min(lo, hi, o1), octant_max(lo, hi, o1)),
                p,
            ) && aabb_contains(
                #[trigger] geo.cell_box(octant_min(lo, hi, o2), octant_max(lo, hi, o2)),
                p,
            ) ==> o1 == o2,
{
    let u = geo.units_per_cell as int;
    let m0 = midpoint(lo, hi, 0) as int;
    let m1 = midpoint(lo, hi, 1) as int;
    let m2 = midpoint(lo, hi, 2) as int;
    lemma_scale(lo[0] as int, m0, u);
    lemma_scale(m0, hi[0] as int, u);
    lemma_scale(lo[1] as int, m1, u);
    lemma_scale(m1, hi[1] as int, u);
    lemma_scale(lo[2] as int, m2, u);
    lemma_scale(m2, hi[2] as int, u);
    let bx: int = if p[0] >= m0 * u { 1 } else { 0 };
    let by: int = if p[1] >= m1 * u { 1 } else { 0 };
    let bz: int = if p[2] >= m2 * u { 1 } else { 0 };
    let o = bx + 2 * by + 4 * bz;
    assert(octant_upper(o, 0) == (bx == 1));
    assert(octant_upper(o, 1) == (by == 1));
    assert(octant_upper(o, 2) == (bz == 1));
    assert(aabb_contains(geo.cell_box(octant_min(lo, hi, o), octant_max(lo, hi, o)), p));
    assert forall|o1: int, o2: int|
        0 <= o1 < 8 && 0 <= o2 < 8 && aabb_contains(
            #[trigger] geo.cell_box(octant_min(lo, hi, o1), octant_max(lo, hi, o1)),
            p,
        ) && aabb_contains(
            #[trigger] geo.cell_box(octant_min(lo, hi, o2), octant_max(lo, hi, o2)),
            p,
        ) implies o1 == o2 by {
        assert(octant_upper(o1, 0) == octant_upper(o2, 0));
        assert(octant_upper(o1, 1) == octant_upper(o2, 1));
        assert(octant_upper(o1, 2) == octant_upper(o2, 2));
    }
}

impl<V> Octree<V> {
    /// Whether the cells of node `k` hold point `p`.
    pub open spec fn owns(&self, k: int, p: GridIndex) -> bool {
        let node = self.nodes@[k];
        aabb_contains(self.geometry.cell_box(node.min_corner, node.max_corner), p)
    }

    /// The node reached from node `k` by stepping down, while there are
    /// children, to the child whose cells hold `p`.
    pub open spec fn owning_leaf(&self, k: int, p: GridIndex) -> int
        decreases self.nodes@.len() - k,
    {
        let node = self.nodes@[k];
        let c = node.children->0 as int;
        if 0 <= k < self.nodes@.len() && node.children is Some && k < c && c + 8 <= self.nodes@.len()
            && exists|o: int| 0 <= o < 8 && #[trigger] self.owns(c + o, p) {
            let o = choose|o: int| 0 <= o < 8 && #[trigger] self.owns(c + o, p);
            self.owning_leaf(c + o, p)
        } else {
            k
        }
    }
}

/// Stepping down from a node whose cells hold `p` ends at a leaf whose
/// cells hold `p`.
proof fn lemma_owning_leaf_is_leaf<V>(tree: Octree<V>, k: int, p: GridIndex)
    requires
        tree.wf(),
        0 <= k < tree.nodes@.len(),
        tree.owns(k, p),
    ensures
        0 <= tree.owning_leaf(k, p) < tree.nodes@.len(),
        tree.nodes@[tree.owning_leaf(k, p)].children is None,
        tree.owns(tree.owning_leaf(k, p), p),
    decreases tree.nodes@.len() - k,
{
    let node = tree.nodes@[k];
    assert(tree.node_shape_ok(k));
    if node.children is Some {
        let c = node.children->0 as int;
        lemma_octants_partition(tree.geometry, node.min_corner, node.max_corner, p);
        let o0 = choose|o: int|
            0 <= o < 8 && aabb_contains(
                tree.geometry.cell_box(
                    octant_min(node.min_corner, node.max_corner, o),
                    octant_max(node.min_corner, node.max_corner, o),
                ),
                p,
            );
        assert(is_octant(node, tree.nodes@[c + o0], o0));
        assert(tree.owns(c + o0, p));
        let o = choose|o: int| 0 <= o < 8 && #[trigger] tree.owns(c + o, p);
        lemma_owning_leaf_is_leaf(tree, c + o, p);
    }
}

/// The child of node `k` whose cells hold `p` is the only such child.
proof fn lemma_owning_child_unique<V>(tree: Octree<V>, k: int, p: GridIndex, o1: int, o2: int)
    requires
        tree.wf(),
        0 <= k < tree.nodes@.len(),
        tree.nodes@[k].children is Some,
        tree.owns(k, p),
        0 <= o1 < 8,
        0 <= o2 < 8,
        tree.owns(tree.nodes@[k].children->0 + o1, p),
        tree.owns(tree.nodes@[k].children->0 + o2, p),
    ensures
        o1 == o2,
{
    let node = tree.nodes@[k];
    let c = node.children->0 as int;
    assert(tree.node_shape_ok(k));
    assert(is_octant(node, tree.nodes@[c + o1], o1));
    assert(is_octant(node, tree.nodes@[c + o2], o2));
    lemma_octants_partition(tree.geometry, node.min_corner, node.max_corner, p);
    assert(aabb_contains(
        tree.geometry.cell_box(
            octant_min(node.min_corner, node.max_corner, o1),
            octant_max(node.min_corner, node.max_corner, o1),
        ),
        p,
    ));
    assert(aabb_contains(
        tree.geometry.cell_box(
            octant_min(node.min_corner, node.max_corner, o2),
            octant_max(node.min_corner, node.max_corner, o2),
        ),
        p,
    ));
}

/// The cells of a child lie in the cells of its parent.
proof fn lemma_child_within_parent<V>(tree: Octree<V>, k: int, o: int, p: GridIndex)
    requires
        tree.wf(),
        0 <= k < tree.nodes@.len(),
        tree.nodes@[k].children is Some,
        0 <= o < 8,
        tree.owns(tree.nodes@[k].children->0 + o, p),
    ensures
        tree.owns(k, p),
{
    let node = tree.nodes@[k];
    let c = node.children->0 as int;
    assert(tree.node_shape_ok(k));
    assert(is_octant(node, tree.nodes@[c + o], o));
    let lo = node.min_corner;
    let hi = node.max_corner;
    let clo = octant_min(lo, hi, o);
    let chi = octant_max(lo, hi, o);
    let u = tree.geometry.units_per_cell as int;
    lemma_scale(lo[0] as int, clo[0] as int, u);
    lemma_scale(clo[0] as int, chi[0] as int, u);
    lemma_scale(chi[0] as int, hi[0] as int, u);
    lemma_scale(lo[1] as int, clo[1] as int, u);
    lemma_scale(clo[1] as int, chi[1] as int, u);
    lemma_scale(chi[1] as int, hi[1] as int, u);
    lemma_scale(lo[2] as int, clo[2] as int, u);
    lemma_scale(clo[2] as int, chi[2] as int, u);
    lemma_scale(chi[2] as int, hi[2] as int, u);
}

/// Every node whose cells hold `p` leads, stepping down, to the same node
/// as the root does.
proof fn lemma_owning_leaf_from_root<V>(tree: Octree<V>, k: int, p: GridIndex)
    requires
        tree.wf(),
        tree.all_reachable(),
        0 <= k < tree.nodes@.len(),
        tree.owns(k, p),
    ensures
        tree.owning_leaf(k, p) == tree.owning_leaf(0, p),
    decreases k,
{
    if k > 0 {
        assert(tree.has_parent(k));
        let q = choose|q: int|
            0 <= q < k && (#[trigger] tree.nodes@[q]).children is Some && tree.nodes@[q].children->0
                <= k < tree.nodes@[q].children->0 + 8;
        let c = tree.nodes@[q].children->0 as int;
        assert(tree.node_shape_ok(q));
        lemma_child_within_parent(tree, q, k - c, p);
        lemma_owning_leaf_from_root(tree, q, p);
        assert(tree.owns(c + (k - c), p));
        let o = choose|o: int| 0 <= o < 8 && #[trigger] tree.owns(c + o, p);
        lemma_owning_child_unique(tree, q, p, o, k - c);
    }
}

/// A node whose cells hold `p` has all its ancestors, the root among
/// them, hold `p` as well.
pub proof fn lemma_owner_in_root<V>(tree: Octree<V>, k: int, p: GridIndex)
    requires
        tree.wf(),
        tree.all_reachable(),
        0 <= k < tree.nodes@.len(),
        tree.owns(k, p),
    ensures
        tree.owns(0, p),
    decreases k,
{
    if k > 0 {
        assert(tree.has_parent(k));
        let q = choose|q: int|
            0 <= q < k && (#[trigger] tree.nodes@[q]).children is Some && tree.nodes@[q].children->0
                <= k < tree.nodes@[q].children->0 + 8;
        let c = tree.nodes@[q].children->0 as int;
        assert(tree.node_shape_ok(q));
        lemma_child_within_parent(tree, q, k - c, p);
        lemma_owner_in_root(tree, q, p);
    }
}

/// The particles in a box are listed in strictly increasing order.
pub proof fn lemma_particles_in_increasing(pos: Seq<GridIndex>, b: Aabb, n: nat)
    requires
        n <= usize::MAX,
    ensures
        forall|a: int, c: int|
            0 <= a < c < particles_in(pos, b, n).len() ==> (#[trigger] particles_in(pos, b, n)[a])
                < #[trigger] particles_in(pos, b, n)[c],
        forall|a: int| 0 <= a < particles_in(pos, b, n).len() ==> (#[trigger] particles_in(pos, b, n)[a]) < n,
    decreases n,
{
    if n > 0 {
        lemma_particles_in_increasing(pos, b, (n - 1) as nat);
        let s = particles_in(pos, b, (n - 1) as nat);
        let t = particles_in(pos, b, n);
        assert forall|a: int| 0 <= a < t.len() implies (#[trigger] t[a]) < n by {
            if a < s.len() {
                assert(t[a] == s[a]);
            }
        }
        assert forall|a: int, c: int| 0 <= a < c < t.len() implies (#[trigger] t[a]) < #[trigger] t[c] by {
            assert(t[a] == s[a]);
            if c < s.len() {
                assert(t[c] == s[c]);
            }
        }
    }
}

/// The cells of a node lie in its ghost box.
pub proof fn lemma_cell_box_within_ghost_box(geo: DecompositionGeometry, lo: GridIndex, hi: GridIndex, p: GridIndex)
    requires
        geo.wf(),
        corners_in_grid(geo.grid, lo, hi),
        aabb_contains(geo.cell_box(lo, hi), p),
    ensures
        aabb_contains(geo.ghost_box(lo, hi), p),
{
    let u = geo.units_per_cell as int;
    lemma_scale(lo[0] as int, hi[0] as int, u);
    lemma_scale(lo[1] as int, hi[1] as int, u);
    lemma_scale(lo[2] as int, hi[2] as int, u);
}

/// Each point in the cells of the root lies in the cells of exactly one
/// leaf: every particle of the domain has one leaf that owns it, whose
/// density is the one written back for it.
pub proof fn lemma_unique_owning_leaf<V>(tree: Octree<V>, p: GridIndex, a: int)
    requires
        tree.wf(),
        tree.all_reachable(),
        tree.owns(0, p),
        0 <= a < tree.nodes@.len(),
    ensures
        0 <= tree.owning_leaf(0, p) < tree.nodes@.len(),
        tree.nodes@[tree.owning_leaf(0, p)].children is None,
        tree.owns(tree.owning_leaf(0, p), p),
        tree.nodes@[a].children is None && tree.owns(a, p) ==> a == tree.owning_leaf(0, p),
{
    lemma_owning_leaf_is_leaf(tree, 0, p);
    if tree.nodes@[a].children is None && tree.owns(a, p) {
        lemma_owning_leaf_from_root(tree, a, p);
    }
}

/// Reconstructing zero particles: the octree is its root alone, a leaf
/// with no particles, whose patch is the empty one.
pub proof fn lemma_empty_input<V>(tree: Octree<V>, pos: Seq<GridIndex>, criterion: SubdivisionCriterion)
    requires
        tree.wf(),
        pos.len() == 0,
        forall|i: int|
            0 <= i < tree.nodes@.len() ==> #[trigger] tree.node_subdivided(pos, criterion, i),
    ensures
        tree.nodes@[0].children is None,
        tree.nodes@[0].data is ParticleSet,
        tree.nodes@[0].data->ParticleSet_0@.len() == 0,
{
    assert(tree.node_subdivided(pos, criterion, 0));
}

/// Few particles, all inside the grid: the octree is its root alone, a
/// leaf that holds every particle in order, so that the one subdomain
/// sees the same particle positions as the whole domain.
pub proof fn lemma_single_leaf<V>(tree: Octree<V>, pos: Seq<GridIndex>, criterion: SubdivisionCriterion)
    requires
        tree.wf(),
        pos.len() <= criterion.max_particles_per_leaf,
        forall|j: int|
            0 <= j < pos.len() ==> aabb_contains(
                tree.geometry.cell_box(tree.nodes@[0].min_corner, tree.nodes@[0].max_corner),
                #[trigger] pos[j],
            ),
        forall|i: int|
            0 <= i < tree.nodes@.len() ==> #[trigger] tree.node_subdivided(pos, criterion, i),
    ensures
        tree.nodes@[0].children is None,
        tree.nodes@[0].data is ParticleSet,
        tree.nodes@[0].data->ParticleSet_0@ == Seq::new(pos.len(), |j: int| j as usize),
{
    assert(tree.node_subdivided(pos, criterion, 0));
    let root = tree.nodes@[0];
    let g = tree.geometry;
    let b = g.ghost_box(root.min_corner, root.max_corner);
    let u = g.units_per_cell as int;
    lemma_scale(0, root.max_corner[0] as int, u);
    lemma_scale(0, root.max_corner[1] as int, u);
    lemma_scale(0, root.max_corner[2] as int, u);
    lemma_all_particles_in(pos, g.cell_box(root.min_corner, root.max_corner), b, pos.len());
    assert(particles_in(pos, b, pos.len()) =~= Seq::new(pos.len(), |j: int| j as usize));
}

/// When every position lies in `c`, and `c` lies in `b`, the particles in
/// `b` are all of them, in order.
proof fn lemma_all_particles_in(pos: Seq<GridIndex>, c: Aabb, b: Aabb, n: nat)
    requires
        n <= pos.len(),
        n <= usize::MAX + 1,
        forall|j: int| 0 <= j < pos.len() ==> aabb_contains(c, #[trigger] pos[j]),
        c.min[0] >= b.min[0] && c.min[1] >= b.min[1] && c.min[2] >= b.min[2],
        c.max[0] <= b.max[0] && c.max[1] <= b.max[1] && c.max[2] <= b.max[2],
    ensures
        particles_in(pos, b, n) =~= Seq::new(n, |j: int| j as usize),
    decreases n,
{
    if n > 0 {
        lemma_all_particles_in(pos, c, b, (n - 1) as nat);
        assert(aabb_contains(c, pos[n - 1]));
    }
}


/// The indices below `n` of the nodes that hold a non-empty particle set,
/// in increasing order: the leaves that have a surface to reconstruct.
pub open spec fn particle_leaves<V>(nodes: Seq<OctreeNode<V>>, n: nat) -> Seq<usize>
    decreases n,
{
    if n == 0 {
        seq![]
    } else {
        let prev = particle_leaves(nodes, (n - 1) as nat);
        let node = nodes[n - 1];
        if node.data is ParticleSet && node.data->ParticleSet_0@.len() > 0 {
            prev.push((n - 1) as usize)
        } else {
            prev
        }
    }
}

impl<V> Octree<V> {
    /// The nodes that hold a non-empty particle set, in increasing order.
    pub fn leaves_with_particles(&self) -> (r: Vec<usize>)
        ensures
            r@ == particle_leaves(self.nodes@, self.nodes@.len()),
    {
        let mut r: Vec<usize> = Vec::new();
        let mut j: usize = 0;
        while j < self.nodes.len()
            invariant
                j <= self.nodes@.len(),
                r@ == particle_leaves(self.nodes@, j as nat),
            decreases self.nodes@.len() - j,
        {
            match &self.nodes[j].data {
                NodeData::ParticleSet(set) => {
                    if set.len() > 0 {
                        r.push(j);
                    }
                },
                _ => {},
            }
            j = j + 1;
        }
        r
    }

    /// Stores `patch` as the payload of node `i`, replacing what it held.
    pub fn install_patch(&mut self, i: usize, patch: SurfacePatch<V>)
        requires
            i < old(self).nodes@.len(),
        ensures
            final(self).geometry == old(self).geometry,
            final(self).nodes@.len() == old(self).nodes@.len(),
            same_frame(final(self).nodes@[i as int], old(self).nodes@[i as int]),
            final(self).nodes@[i as int].children == old(self).nodes@[i as int].children,
            final(self).nodes@[i as int].data == NodeData::SurfacePatch(patch),
            forall|j: int|
                0 <= j < old(self).nodes@.len() && j != i ==> #[trigger] final(self).nodes@[j]
                    == old(self).nodes@[j],
            old(self).wf() ==> final(self).wf(),
            old(self).all_reachable() ==> final(self).all_reachable(),
    {
        let ghost old_self = *self;
        let node = &self.nodes[i];
        let mut updated = OctreeNode {
            min_corner: node.min_corner,
            max_corner: node.max_corner,
            depth: node.depth,
            children: node.children,
            data: NodeData::SurfacePatch(patch),
        };
        self.nodes.set_and_swap(i, &mut updated);
        proof {
            lemma_same_frames_keep_shape(old_self, *self);
        }
    }

    /// Takes the patch out of node `i`, if it holds one, leaving it empty.
    pub fn take_patch(&mut self, i: usize) -> (r: Option<SurfacePatch<V>>)
        requires
            i < old(self).nodes@.len(),
        ensures
            old(self).nodes@[i as int].data is SurfacePatch ==> r == Some(
                old(self).nodes@[i as int].data->SurfacePatch_0,
            ),
            !(old(self).nodes@[i as int].data is SurfacePatch) ==> r is None,
            final(self).geometry == old(self).geometry,
            final(self).nodes@.len() == old(self).nodes@.len(),
            same_frame(final(self).nodes@[i as int], old(self).nodes@[i as int]),
            final(self).nodes@[i as int].children == old(self).nodes@[i as int].children,
            final(self).nodes@[i as int].data is Empty,
            forall|j: int|
                0 <= j < old(self).nodes@.len() && j != i ==> #[trigger] final(self).nodes@[j]
                    == old(self).nodes@[j],
            old(self).wf() ==> final(self).wf(),
    {
        let ghost old_self = *self;
        let node = &self.nodes[i];
        let mut taken = OctreeNode {
            min_corner: node.min_corner,
            max_corner: node.max_corner,
            depth: node.depth,
            children: node.children,
            data: NodeData::Empty,
        };
        self.nodes.set_and_swap(i, &mut taken);
        proof {
            lemma_same_frames_keep_shape(old_self, *self);
        }
        match taken.data {
            NodeData::SurfacePatch(p) => Some(p),
            _ => None,
        }
    }
}

/// Changing only payloads keeps a tree well formed and reachable.
proof fn lemma_same_frames_keep_shape<V>(a: Octree<V>, b: Octree<V>)
    requires
        a.geometry == b.geometry,
        a.nodes@.len() == b.nodes@.len(),
        forall|j: int|
            0 <= j < a.nodes@.len() ==> same_frame(#[trigger] b.nodes@[j], a.nodes@[j])
                && b.nodes@[j].children == a.nodes@[j].children,
    ensures
        a.wf() ==> b.wf(),
        a.all_reachable() ==> b.all_reachable(),
{
    if a.wf() {
        assert forall|j: int| 0 <= j < b.nodes@.len() implies #[trigger] b.node_shape_ok(j) by {
            assert(a.node_shape_ok(j));
            assert(same_frame(b.nodes@[j], a.nodes@[j]));
            if b.nodes@[j].children is Some {
                let c = b.nodes@[j].children->0 as int;
                assert forall|o: int| 0 <= o < 8 implies is_octant(
                    b.nodes@[j],
                    #[trigger] b.nodes@[c + o],
                    o,
                ) by {
                    assert(is_octant(a.nodes@[j], a.nodes@[c + o], o));
                    assert(same_frame(b.nodes@[c + o], a.nodes@[c + o]));
                }
            }
        }
        assert(same_frame(b.nodes@[0], a.nodes@[0]));
        assert forall|x: int, y: int|
            0 <= x < y < b.nodes@.len() && (#[trigger] b.nodes@[x]).children is Some && (
            #[trigger] b.nodes@[y]).children is Some implies b.nodes@[x].children->0 + 8
            <= b.nodes@[y].children->0 by {
            assert(same_frame(b.nodes@[x], a.nodes@[x]));
            assert(same_frame(b.nodes@[y], a.nodes@[y]));
        }
    }
    if a.all_reachable() {
        assert forall|j: int| 1 <= j < b.nodes@.len() implies #[trigger] b.has_parent(j) by {
            assert(a.has_parent(j));
            let k = choose|k: int|
                0 <= k < j && (#[trigger] a.nodes@[k]).children is Some && a.nodes@[k].children->0
                    <= j < a.nodes@[k].children->0 + 8;
            assert(same_frame(b.nodes@[k], a.nodes@[k]));
        }
    }
}

} // verus!
