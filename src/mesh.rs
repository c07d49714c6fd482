//! Triangle meshes whose vertex type is left to the caller, and the surface
//! patches that the subdomains of the octree produce.

use vstd::prelude::*;

use crate::grid::SubdomainGrid;

verus! {

/// A triangle: three indices into the vertex list of its mesh.
pub type Triangle = [usize; 3];

/// A triangle mesh: a vertex list and triangles that index into it.
#[derive(Debug)]
pub struct TriMesh3d<V> {
    pub vertices: Vec<V>,
    pub triangles: Vec<Triangle>,
}

/// Whether every corner of every triangle of `tris` is below `n`.
pub open spec fn triangles_index_below(tris: Seq<Triangle>, n: int) -> bool {
    forall|t: int|
        0 <= t < tris.len() ==> {
            &&& (#[trigger] tris[t])[0] < n
            &&& tris[t][1] < n
            &&& tris[t][2] < n
        }
}

/// `t` with `k` added to each of its corners.
pub open spec fn shifted(t: Triangle, k: int) -> Triangle {
    [(t[0] + k) as usize, (t[1] + k) as usize, (t[2] + k) as usize]
}

/// The triangles of `tris`, each shifted by `k`.
pub open spec fn shifted_all(tris: Seq<Triangle>, k: int) -> Seq<Triangle> {
    Seq::new(tris.len(), |i: int| shifted(tris[i], k))
}

impl<V> TriMesh3d<V> {
    /// Every triangle indexes vertices of the mesh.
    pub open spec fn wf(&self) -> bool {
        triangles_index_below(self.triangles@, self.vertices@.len() as int)
    }

    /// A mesh with no vertices and no triangles.
    pub fn new() -> (r: TriMesh3d<V>)
        ensures
            r.vertices@.len() == 0,
            r.triangles@.len() == 0,
            r.wf(),
    {
        TriMesh3d { vertices: Vec::new(), triangles: Vec::new() }
    }

    /// Removes all vertices and triangles.
    pub fn clear(&mut self)
        ensures
            final(self).vertices@.len() == 0,
            final(self).triangles@.len() == 0,
            final(self).wf(),
    {
        self.vertices.clear();
        self.triangles.clear();
    }

    /// Moves the vertices and triangles of `other` to the end of this mesh,
    /// shifting the triangles of `other` past the vertices already here;
    /// `other` is left empty.
    pub fn append(&mut self, other: &mut TriMesh3d<V>)
        requires
            old(self).vertices@.len() + old(other).vertices@.len() <= usize::MAX,
            old(other).wf(),
        ensures
            final(self).vertices@ == old(self).vertices@ + old(other).vertices@,
            final(self).triangles@ == old(self).triangles@ + shifted_all(
                old(other).triangles@,
                old(self).vertices@.len() as int,
            ),
            final(other).vertices@.len() == 0,
            final(other).triangles@.len() == 0,
            old(self).wf() ==> final(self).wf(),
    {
        let offset = self.vertices.len();
        let ghost old_tris = self.triangles@;
        let ghost n_other = other.vertices@.len();
        let mut i: usize = 0;
        while i < other.triangles.len()
            invariant
                i <= other.triangles@.len(),
                offset == old(self).vertices@.len(),
                self.vertices@ == old(self).vertices@,
                other.vertices@.len() == n_other,
                other.triangles@ == old(other).triangles@,
                offset + n_other <= usize::MAX,
                triangles_index_below(other.triangles@, n_other as int),
                self.triangles@ == old_tris + shifted_all(
                    other.triangles@.take(i as int),
                    offset as int,
                ),
            decreases other.triangles@.len() - i,
        {
            let t = other.triangles[i];
            assert(t == other.triangles@[i as int]);
            self.triangles.push([t[0] + offset, t[1] + offset, t[2] + offset]);
            i = i + 1;
            assert(shifted_all(other.triangles@.take(i as int), offset as int) =~= shifted_all(
                other.triangles@.take(i - 1),
                offset as int,
            ).push(shifted(t, offset as int)));
        }
        assert(other.triangles@.take(i as int) =~= other.triangles@);
        self.vertices.append(&mut other.vertices);
        other.triangles.clear();
        proof {
            let n = self.vertices@.len() as int;
            let tris = self.triangles@;
            assert(n == offset + n_other);
            assert(tris == old_tris + shifted_all(old(other).triangles@, offset as int));
            assert forall|t: int| old(self).wf() && 0 <= t < tris.len() implies {
                &&& (#[trigger] tris[t])[0] < n
                &&& tris[t][1] < n
                &&& tris[t][2] < n
            } by {
                if t >= old_tris.len() {
                    let u = t - old_tris.len();
                    let o = old(other).triangles@[u];
                    assert(o[0] < n_other && o[1] < n_other && o[2] < n_other);
                    assert(tris[t] == shifted(o, offset as int));
                } else {
                    assert(tris[t] == old_tris[t]);
                }
            }
        }
    }
}

/// The mesh that one subdomain produced, with the grid edge that each of
/// its vertices lies on: `vertex_keys[v]` is the key of vertex `v`, equal
/// for vertices that two subdomains generate on a face they share.
#[derive(Debug)]
pub struct SurfacePatch<V> {
    pub subdomain: SubdomainGrid,
    pub mesh: TriMesh3d<V>,
    pub vertex_keys: Vec<i64>,
}

impl<V> SurfacePatch<V> {
    /// The mesh is well formed and each vertex has one key.
    pub open spec fn wf(&self) -> bool {
        &&& self.mesh.wf()
        &&& self.vertex_keys@.len() == self.mesh.vertices@.len()
    }

    /// The patch of a subdomain that holds no particles: no vertices, no
    /// triangles.
    pub fn new_empty(subdomain: SubdomainGrid) -> (r: SurfacePatch<V>)
        ensures
            r.subdomain == subdomain,
            r.mesh.vertices@.len() == 0,
            r.mesh.triangles@.len() == 0,
            r.wf(),
    {
        SurfacePatch { subdomain, mesh: TriMesh3d::new(), vertex_keys: Vec::new() }
    }
}

} // verus!
