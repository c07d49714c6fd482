//! The uniform grid as an integer lattice of cells and points, and subdomain
//! grids: windows into the global grid that share its cell size and differ
//! only in offset and extent, so that their points coincide exactly.

use vstd::prelude::*;

verus! {

/// Largest number of cells along one axis of a grid.
pub const MAX_CELLS_PER_DIM: i64 = 1048576;

/// A point (or cell) index on the lattice, one coordinate per axis.
pub type GridIndex = [i64; 3];

/// A uniform grid of `n_cells_per_dim` cells along each axis; its points
/// are indexed from zero to the number of cells, inclusive.
#[derive(Clone, Copy, Debug)]
pub struct UniformGrid {
    pub n_cells_per_dim: GridIndex,
}

/// Whether `p` is a point of a grid with `n` cells per axis.
pub open spec fn point_in_extent(n: GridIndex, p: GridIndex) -> bool {
    &&& 0 <= p[0] <= n[0]
    &&& 0 <= p[1] <= n[1]
    &&& 0 <= p[2] <= n[2]
}

/// Row-major number of point `p` in a grid with `n` cells per axis.
pub open spec fn flat_point_index(n: GridIndex, p: GridIndex) -> int {
    (p[0] * (n[1] + 1) + p[1]) * (n[2] + 1) + p[2]
}

impl UniformGrid {
    /// The cell counts are positive and small enough that every point
    /// number fits in an `i64`.
    pub open spec fn wf(&self) -> bool {
        &&& 0 < self.n_cells_per_dim[0] <= MAX_CELLS_PER_DIM
        &&& 0 < self.n_cells_per_dim[1] <= MAX_CELLS_PER_DIM
        &&& 0 < self.n_cells_per_dim[2] <= MAX_CELLS_PER_DIM
    }

    /// A grid with the given number of cells per axis, if every count lies
    /// between one and `MAX_CELLS_PER_DIM`.
    pub fn new(n_cells_per_dim: GridIndex) -> (r: Option<UniformGrid>)
        ensures
            r is Some <==> (UniformGrid { n_cells_per_dim }).wf(),
            r is Some ==> r->0.n_cells_per_dim == n_cells_per_dim,
    {
        let g = UniformGrid { n_cells_per_dim };
        if 0 < n_cells_per_dim[0] && n_cells_per_dim[0] <= MAX_CELLS_PER_DIM && 0
            < n_cells_per_dim[1] && n_cells_per_dim[1] <= MAX_CELLS_PER_DIM && 0
            < n_cells_per_dim[2] && n_cells_per_dim[2] <= MAX_CELLS_PER_DIM {
            Some(g)
        } else {
            None
        }
    }

    /// Number of points along each axis: one more than the number of cells.
    pub fn points_per_dim(&self) -> (r: GridIndex)
        requires
            self.wf(),
        ensures
            r[0] == self.n_cells_per_dim[0] + 1,
            r[1] == self.n_cells_per_dim[1] + 1,
            r[2] == self.n_cells_per_dim[2] + 1,
    {
        [self.n_cells_per_dim[0] + 1, self.n_cells_per_dim[1] + 1, self.n_cells_per_dim[2] + 1]
    }

    /// Whether `p` is a point of this grid.
    pub fn is_point_in_bounds(&self, p: GridIndex) -> (r: bool)
        ensures
            r == point_in_extent(self.n_cells_per_dim, p),
    {
        let n = self.n_cells_per_dim;
        0 <= p[0] && p[0] <= n[0] && 0 <= p[1] && p[1] <= n[1] && 0 <= p[2] && p[2] <= n[2]
    }

    /// The row-major number of point `p`, the key of the point in a
    /// density map.
    pub fn flatten_point_index(&self, p: GridIndex) -> (r: i64)
        requires
            self.wf(),
            point_in_extent(self.n_cells_per_dim, p),
        ensures
            r == flat_point_index(self.n_cells_per_dim, p),
            0 <= r,
    {
        let n = self.n_cells_per_dim;
        let ny: i64 = n[1] + 1;
        let nz: i64 = n[2] + 1;
        proof {
            lemma_flat_bounds(n, p);
        }
        (p[0] * ny + p[1]) * nz + p[2]
    }
}

/// The numbering of points stays below the point count of the grid and
/// well inside `i64`.
proof fn lemma_flat_bounds(n: GridIndex, p: GridIndex)
    requires
        (UniformGrid { n_cells_per_dim: n }).wf(),
        point_in_extent(n, p),
    ensures
        0 <= p[0] * (n[1] + 1) <= (n[0] + 1) * (n[1] + 1),
        0 <= p[0] * (n[1] + 1) + p[1] <= (n[0] + 1) * (n[1] + 1),
        0 <= (p[0] * (n[1] + 1) + p[1]) * (n[2] + 1) <= (n[0] + 1) * (n[1] + 1) * (n[2] + 1),
        0 <= flat_point_index(n, p) < (n[0] + 1) * (n[1] + 1) * (n[2] + 1),
        (n[0] + 1) * (n[1] + 1) <= 1099513724929,
        (n[0] + 1) * (n[1] + 1) * (n[2] + 1) <= 1152924803144876033,
{
    let (a, b, c) = (n[0] + 1, n[1] + 1, n[2] + 1);
    let (x, y, z) = (p[0], p[1], p[2]);
    assert(0 <= x * b <= a * b) by (nonlinear_arith)
        requires
            0 <= x < a,
            0 < b,
    ;
    assert(0 <= x * b + y < a * b) by (nonlinear_arith)
        requires
            0 <= x < a,
            0 <= y < b,
    ;
    assert(0 <= (x * b + y) * c <= a * b * c) by (nonlinear_arith)
        requires
            0 <= x * b + y < a * b,
            0 < c,
    ;
    assert(0 <= (x * b + y) * c + z < a * b * c) by (nonlinear_arith)
        requires
            0 <= x * b + y < a * b,
            0 <= z < c,
    ;
    assert(a * b <= 1099513724929 && a * b * c <= 1152924803144876033) by (nonlinear_arith)
        requires
            0 < a <= 1048577,
            0 < b <= 1048577,
            0 < c <= 1048577,
    ;
}

/// A window of `subdomain` cells into `global`, starting at point `offset`
/// of the global grid.
#[derive(Clone, Copy, Debug)]
pub struct SubdomainGrid {
    pub global: UniformGrid,
    pub subdomain: UniformGrid,
    pub offset: GridIndex,
}

/// The global point that the local point `p` of a subdomain at `offset` is.
pub open spec fn local_to_global(offset: GridIndex, p: GridIndex) -> GridIndex {
    [(offset[0] + p[0]) as i64, (offset[1] + p[1]) as i64, (offset[2] + p[2]) as i64]
}

/// The local point of a subdomain at `offset` that the global point `q` is.
pub open spec fn global_to_local(offset: GridIndex, q: GridIndex) -> GridIndex {
    [(q[0] - offset[0]) as i64, (q[1] - offset[1]) as i64, (q[2] - offset[2]) as i64]
}

impl SubdomainGrid {
    /// Both grids are well formed and the window lies inside the global grid.
    pub open spec fn wf(&self) -> bool {
        &&& self.global.wf()
        &&& self.subdomain.wf()
        &&& 0 <= self.offset[0]
        &&& 0 <= self.offset[1]
        &&& 0 <= self.offset[2]
        &&& self.offset[0] + self.subdomain.n_cells_per_dim[0] <= self.global.n_cells_per_dim[0]
        &&& self.offset[1] + self.subdomain.n_cells_per_dim[1] <= self.global.n_cells_per_dim[1]
        &&& self.offset[2] + self.subdomain.n_cells_per_dim[2] <= self.global.n_cells_per_dim[2]
    }

    /// A subdomain of `global` with `n_cells_per_dim` cells at `offset`, if
    /// that window is a grid that lies inside `global`.
    pub fn new(global: UniformGrid, n_cells_per_dim: GridIndex, offset: GridIndex) -> (r: Option<
        SubdomainGrid,
    >)
        ensures
            r is Some <==> (SubdomainGrid {
                global,
                subdomain: UniformGrid { n_cells_per_dim },
                offset,
            }).wf(),
            r is Some ==> r->0 == (SubdomainGrid {
                global,
                subdomain: UniformGrid { n_cells_per_dim },
                offset,
            }),
    {
        let subdomain = match UniformGrid::new(n_cells_per_dim) {
            Some(s) => s,
            None => {
                return None;
            },
        };
        if UniformGrid::new(global.n_cells_per_dim).is_none() {
            return None;
        }
        let g = global.n_cells_per_dim;
        if 0 <= offset[0] && 0 <= offset[1] && 0 <= offset[2] && offset[0] <= g[0]
            - n_cells_per_dim[0] && offset[1] <= g[1] - n_cells_per_dim[1] && offset[2] <= g[2]
            - n_cells_per_dim[2] {
            Some(SubdomainGrid { global, subdomain, offset })
        } else {
            None
        }
    }

    /// The global point that the local point `p` is.
    pub fn map_point_to_global(&self, p: GridIndex) -> (r: GridIndex)
        requires
            self.wf(),
            point_in_extent(self.subdomain.n_cells_per_dim, p),
        ensures
            r == local_to_global(self.offset, p),
            point_in_extent(self.global.n_cells_per_dim, r),
    {
        [self.offset[0] + p[0], self.offset[1] + p[1], self.offset[2] + p[2]]
    }

    /// The local point that the global point `q` is, if the subdomain
    /// holds it.
    pub fn map_point_to_local(&self, q: GridIndex) -> (r: Option<GridIndex>)
        requires
            self.wf(),
            point_in_extent(self.global.n_cells_per_dim, q),
        ensures
            r is Some <==> point_in_extent(
                self.subdomain.n_cells_per_dim,
                global_to_local(self.offset, q),
            ),
            r is Some ==> r->0 == global_to_local(self.offset, q),
    {
        let p: GridIndex = [q[0] - self.offset[0], q[1] - self.offset[1], q[2] - self.offset[2]];
        if self.subdomain.is_point_in_bounds(p) {
            Some(p)
        } else {
            None
        }
    }
}

/// Mapping a local point to the global grid and back gives the point again.
pub proof fn lemma_local_global_round_trip(s: SubdomainGrid, p: GridIndex)
    requires
        s.wf(),
        point_in_extent(s.subdomain.n_cells_per_dim, p),
    ensures
        point_in_extent(s.global.n_cells_per_dim, local_to_global(s.offset, p)),
        global_to_local(s.offset, local_to_global(s.offset, p)) == p,
{
    assert(global_to_local(s.offset, local_to_global(s.offset, p)) =~= p);
}

/// Two subdomains of one global grid see a global point that both hold at
/// local points that map back to that same global point: points on a face
/// that two subdomains share are identified exactly.
pub proof fn lemma_shared_points_coincide(a: SubdomainGrid, b: SubdomainGrid, q: GridIndex)
    requires
        a.wf(),
        b.wf(),
        a.global == b.global,
        point_in_extent(a.global.n_cells_per_dim, q),
        point_in_extent(a.subdomain.n_cells_per_dim, global_to_local(a.offset, q)),
        point_in_extent(b.subdomain.n_cells_per_dim, global_to_local(b.offset, q)),
    ensures
        local_to_global(a.offset, global_to_local(a.offset, q)) == q,
        local_to_global(b.offset, global_to_local(b.offset, q)) == q,
        flat_point_index(a.global.n_cells_per_dim, local_to_global(a.offset, global_to_local(a.offset, q)))
            == flat_point_index(b.global.n_cells_per_dim, local_to_global(b.offset, global_to_local(b.offset, q))),
{
    assert(local_to_global(a.offset, global_to_local(a.offset, q)) =~= q);
    assert(local_to_global(b.offset, global_to_local(b.offset, q)) =~= q);
}

} // verus!
