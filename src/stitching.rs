//! Stitching: the merge of the surface patches of neighbouring subdomains
//! into one patch, in which the vertices that several patches generated at
//! one grid location are kept once.

use vstd::pervasive::VecAdditionalExecFns;
use vstd::prelude::*;

use crate::grid::{SubdomainGrid, UniformGrid};
use crate::mesh::{triangles_index_below, SurfacePatch, Triangle};
use crate::octree::{same_frame, NodeData, Octree, OctreeNode};

verus! {

/// The keys of the corners of each triangle of `tris`.
pub open spec fn triangle_keys(keys: Seq<i64>, tris: Seq<Triangle>) -> Seq<[i64; 3]> {
    Seq::new(tris.len(), |t: int| [keys[tris[t][0] as int], keys[tris[t][1] as int], keys[tris[t][2] as int]])
}

/// Whether no key occurs twice in `keys`.
pub open spec fn keys_distinct(keys: Seq<i64>) -> bool {
    forall|a: int, b: int| 0 <= a < b < keys.len() ==> keys[a] != keys[b]
}

/// The keys and vertices of a merged patch after the vertices `pv` with
/// keys `pk` were merged into `keys` and `verts`, one after another: a
/// vertex whose key is already there is dropped, the others are appended.
pub open spec fn merged_vertices<V>(keys: Seq<i64>, verts: Seq<V>, pk: Seq<i64>, pv: Seq<V>) -> (
    Seq<i64>,
    Seq<V>,
)
    decreases pk.len(),
{
    if pk.len() == 0 {
        (keys, verts)
    } else {
        let prev = merged_vertices(keys, verts, pk.drop_last(), pv);
        let k = pk.last();
        if prev.0.contains(k) {
            prev
        } else {
            (prev.0.push(k), prev.1.push(pv[pk.len() - 1]))
        }
    }
}

/// The position of `k` in `keys`, if it occurs there.
pub fn find_key(keys: &Vec<i64>, k: i64) -> (r: Option<usize>)
    ensures
        r is Some ==> r->0 < keys@.len() && keys@[r->0 as int] == k && forall|j: int|
            0 <= j < r->0 ==> keys@[j] != k,
        r is None ==> !keys@.contains(k),
{
    let mut i: usize = 0;
    while i < keys.len()
        invariant
            i <= keys@.len(),
            forall|j: int| 0 <= j < i ==> keys@[j] != k,
        decreases keys@.len() - i,
    {
        if keys[i] == k {
            return Some(i);
        }
        i = i + 1;
    }
    None
}

/// Merges `patch` into `merged`: a vertex of `patch` whose key `merged`
/// already holds is replaced by the vertex there, the others are appended,
/// and the triangles of `patch` are appended over the merged vertices.
pub fn merge_patch_into<V: Copy>(merged: &mut SurfacePatch<V>, patch: &SurfacePatch<V>)
    requires
        old(merged).wf(),
        patch.wf(),
        keys_distinct(old(merged).vertex_keys@),
    ensures
        final(merged).wf(),
        final(merged).subdomain == old(merged).subdomain,
        keys_distinct(final(merged).vertex_keys@),
        forall|k: i64|
            #[trigger] final(merged).vertex_keys@.contains(k) <==> old(merged).vertex_keys@.contains(k)
                || patch.vertex_keys@.contains(k),
        final(merged).mesh.vertices@.len() <= old(merged).mesh.vertices@.len()
            + patch.mesh.vertices@.len(),
        (final(merged).vertex_keys@, final(merged).mesh.vertices@) == merged_vertices(
            old(merged).vertex_keys@,
            old(merged).mesh.vertices@,
            patch.vertex_keys@,
            patch.mesh.vertices@,
        ),
        final(merged).vertex_keys@.len() == final(merged).mesh.vertices@.len(),
        triangle_keys(final(merged).vertex_keys@, final(merged).mesh.triangles@) == triangle_keys(
            old(merged).vertex_keys@,
            old(merged).mesh.triangles@,
        ) + triangle_keys(patch.vertex_keys@, patch.mesh.triangles@),
{
    let ghost old_keys = merged.vertex_keys@;
    let ghost old_tris = merged.mesh.triangles@;
    let ghost n_old = old_keys.len();
    let n_verts = patch.mesh.vertices.len();
    let mut remap: Vec<usize> = Vec::new();
    let mut v: usize = 0;
    while v < n_verts
        invariant
            v <= n_verts == patch.mesh.vertices@.len() == patch.vertex_keys@.len(),
            remap@.len() == v,
            merged.vertex_keys@.len() == merged.mesh.vertices@.len(),
            merged.vertex_keys@.len() <= n_old + v,
            (merged.vertex_keys@, merged.mesh.vertices@) == merged_vertices(
                old(merged).vertex_keys@,
                old(merged).mesh.vertices@,
                patch.vertex_keys@.take(v as int),
                patch.mesh.vertices@,
            ),
            merged.vertex_keys@.take(n_old as int) == old_keys,
            n_old <= merged.vertex_keys@.len(),
            merged.mesh.triangles@ == old_tris,
            merged.subdomain == old(merged).subdomain,
            n_old == old(merged).mesh.vertices@.len(),
            triangles_index_below(old_tris, n_old as int),
            keys_distinct(merged.vertex_keys@),
            forall|w: int|
                0 <= w < v ==> (#[trigger] remap@[w]) < merged.vertex_keys@.len()
                    && merged.vertex_keys@[remap@[w] as int] == patch.vertex_keys@[w],
            forall|k: i64|
                #[trigger] merged.vertex_keys@.contains(k) <==> old_keys.contains(k)
                    || patch.vertex_keys@.take(v as int).contains(k),
        decreases n_verts - v,
    {
        let k = patch.vertex_keys[v];
        let ghost before = merged.vertex_keys@;
        match find_key(&merged.vertex_keys, k) {
            Some(m) => {
                remap.push(m);
            },
            None => {
                let idx = merged.mesh.vertices.len();
                merged.mesh.vertices.push(patch.mesh.vertices[v]);
                merged.vertex_keys.push(k);
                remap.push(idx);
                assert(merged.vertex_keys@.take(n_old as int) =~= before.take(n_old as int));
                assert forall|w: int| 0 <= w < v implies merged.vertex_keys@[remap@[w] as int]
                    == patch.vertex_keys@[w] by {
                    assert(merged.vertex_keys@[remap@[w] as int] == before[remap@[w] as int]);
                }
                assert forall|a: int, b: int|
                    0 <= a < b < merged.vertex_keys@.len() implies merged.vertex_keys@[a]
                    != merged.vertex_keys@[b] by {
                    if b == before.len() {
                        assert(before.contains(before[a]));
                    }
                }
            },
        }
        let ghost taken = patch.vertex_keys@.take(v + 1);
        assert(taken =~= patch.vertex_keys@.take(v as int).push(k));
        assert(taken.drop_last() =~= patch.vertex_keys@.take(v as int));
        assert forall|x: i64| #[trigger] merged.vertex_keys@.contains(x) <==> old_keys.contains(x)
            || taken.contains(x) by {
            if x == k {
                assert(taken[v as int] == k);
                assert(merged.vertex_keys@[remap@[v as int] as int] == k);
            }
            if merged.vertex_keys@.contains(x) && x != k {
                let j = choose|j: int| 0 <= j < merged.vertex_keys@.len() && merged.vertex_keys@[j] == x;
                if j < before.len() {
                    assert(before[j] == merged.vertex_keys@[j]);
                    assert(before.contains(x));
                }
            }
            if taken.contains(x) && x != k {
                let j = choose|j: int| 0 <= j < taken.len() && taken[j] == x;
                assert(patch.vertex_keys@.take(v as int)[j] == x);
            }
            if patch.vertex_keys@.take(v as int).contains(x) {
                let j = choose|j: int| 0 <= j < v && patch.vertex_keys@.take(v as int)[j] == x;
                assert(taken[j] == x);
            }
            if before.contains(x) {
                let j = choose|j: int| 0 <= j < before.len() && before[j] == x;
                assert(merged.vertex_keys@[j] == x);
            }
        }
        v = v + 1;
    }
    assert(patch.vertex_keys@.take(v as int) =~= patch.vertex_keys@);
    let ghost verts = merged.mesh.vertices@;
    let ghost keys = merged.vertex_keys@;
    let n_tris = patch.mesh.triangles.len();
    let mut t: usize = 0;
    while t < n_tris
        invariant
            t <= n_tris == patch.mesh.triangles@.len(),
            merged.vertex_keys@ == keys,
            merged.mesh.vertices@ == verts,
            merged.subdomain == old(merged).subdomain,
            keys.len() == merged.mesh.vertices@.len(),
            keys.take(n_old as int) == old_keys,
            n_old <= keys.len(),
            remap@.len() == patch.vertex_keys@.len(),
            triangles_index_below(patch.mesh.triangles@, patch.vertex_keys@.len() as int),
            forall|w: int|
                0 <= w < remap@.len() ==> (#[trigger] remap@[w]) < keys.len() && keys[remap@[w] as int]
                    == patch.vertex_keys@[w],
            triangles_index_below(merged.mesh.triangles@, keys.len() as int),
            triangle_keys(keys, merged.mesh.triangles@) == triangle_keys(old_keys, old_tris)
                + triangle_keys(patch.vertex_keys@, patch.mesh.triangles@.take(t as int)),
        decreases n_tris - t,
    {
        let tri = patch.mesh.triangles[t];
        assert(tri == patch.mesh.triangles@[t as int]);
        let ghost before = merged.mesh.triangles@;
        let mapped: Triangle = [remap[tri[0]], remap[tri[1]], remap[tri[2]]];
        merged.mesh.triangles.push(mapped);
        assert(patch.mesh.triangles@.take(t + 1) =~= patch.mesh.triangles@.take(t as int).push(tri));
        assert(triangle_keys(keys, merged.mesh.triangles@) =~= triangle_keys(keys, before).push(
            [keys[mapped[0] as int], keys[mapped[1] as int], keys[mapped[2] as int]],
        ));
        assert(triangle_keys(patch.vertex_keys@, patch.mesh.triangles@.take(t + 1)) =~= triangle_keys(
            patch.vertex_keys@,
            patch.mesh.triangles@.take(t as int),
        ).push([patch.vertex_keys@[tri[0] as int], patch.vertex_keys@[tri[1] as int], patch.vertex_keys@[tri[2] as int]]));
        t = t + 1;
    }
    assert(patch.mesh.triangles@.take(t as int) =~= patch.mesh.triangles@);
}

/// The keys of the corners of the triangles of all `patches`, patch after
/// patch.
pub open spec fn all_triangle_keys<V>(patches: Seq<SurfacePatch<V>>) -> Seq<[i64; 3]>
    decreases patches.len(),
{
    if patches.len() == 0 {
        seq![]
    } else {
        all_triangle_keys(patches.drop_last()) + triangle_keys(
            patches.last().vertex_keys@,
            patches.last().mesh.triangles@,
        )
    }
}

/// The number of vertices of all `patches`.
pub open spec fn total_vertices<V>(patches: Seq<SurfacePatch<V>>) -> nat
    decreases patches.len(),
{
    if patches.len() == 0 {
        0
    } else {
        total_vertices(patches.drop_last()) + patches.last().mesh.vertices@.len()
    }
}

/// The keys and vertices of the patch stitched from `patches`.
pub open spec fn stitched_vertices<V>(patches: Seq<SurfacePatch<V>>) -> (Seq<i64>, Seq<V>)
    decreases patches.len(),
{
    if patches.len() == 0 {
        (seq![], seq![])
    } else {
        let prev = stitched_vertices(patches.drop_last());
        merged_vertices(prev.0, prev.1, patches.last().vertex_keys@, patches.last().mesh.vertices@)
    }
}

/// Whether one of `patches` has a vertex with key `k`.
pub open spec fn some_patch_has_key<V>(patches: Seq<SurfacePatch<V>>, k: i64) -> bool {
    exists|p: int| 0 <= p < patches.len() && (#[trigger] patches[p]).vertex_keys@.contains(k)
}

/// Stitches `patches` into one patch over `subdomain`: each key of a
/// vertex of the patches occurs once in the result, and every triangle of
/// the patches is kept, in order, over the vertices of its keys.
pub fn stitch_surface_patches<V: Copy>(patches: &Vec<SurfacePatch<V>>, subdomain: SubdomainGrid) -> (r:
    SurfacePatch<V>)
    requires
        forall|p: int| 0 <= p < patches@.len() ==> (#[trigger] patches@[p]).wf(),
    ensures
        r.mesh.vertices@.len() <= total_vertices(patches@),
        r.wf(),
        r.subdomain == subdomain,
        keys_distinct(r.vertex_keys@),
        forall|k: i64| #[trigger] r.vertex_keys@.contains(k) <==> some_patch_has_key(patches@, k),
        triangle_keys(r.vertex_keys@, r.mesh.triangles@) == all_triangle_keys(patches@),
        (r.vertex_keys@, r.mesh.vertices@) == stitched_vertices(patches@),
{
    let mut merged: SurfacePatch<V> = SurfacePatch::new_empty(subdomain);
    let mut p: usize = 0;
    while p < patches.len()
        invariant
            p <= patches@.len(),
            forall|q: int| 0 <= q < patches@.len() ==> (#[trigger] patches@[q]).wf(),
            merged.wf(),
            merged.subdomain == subdomain,
            keys_distinct(merged.vertex_keys@),
            merged.mesh.vertices@.len() <= total_vertices(patches@.take(p as int)),
            forall|k: i64|
                #[trigger] merged.vertex_keys@.contains(k) <==> some_patch_has_key(
                    patches@.take(p as int),
                    k,
                ),
            triangle_keys(merged.vertex_keys@, merged.mesh.triangles@) == all_triangle_keys(
                patches@.take(p as int),
            ),
            (merged.vertex_keys@, merged.mesh.vertices@) == stitched_vertices(patches@.take(p as int)),
        decreases patches@.len() - p,
    {
        let ghost prefix = patches@.take(p as int);
        let ghost next = patches@.take(p + 1);
        assert(next.drop_last() =~= prefix);
        assert(next.last() == patches@[p as int]);
        proof {
            lemma_total_vertices_prefix(patches@, p + 1);
        }
        merge_patch_into(&mut merged, &patches[p]);
        assert forall|k: i64| #[trigger] merged.vertex_keys@.contains(k) <==> some_patch_has_key(
            next,
            k,
        ) by {
            if some_patch_has_key(next, k) {
                let q = choose|q: int| 0 <= q < next.len() && (#[trigger] next[q]).vertex_keys@.contains(k);
                if q < p {
                    assert(prefix[q] == next[q]);
                    assert(some_patch_has_key(prefix, k));
                }
            }
            if some_patch_has_key(prefix, k) {
                let q = choose|q: int| 0 <= q < prefix.len() && (#[trigger] prefix[q]).vertex_keys@.contains(k);
                assert(next[q] == prefix[q]);
            }
            if patches@[p as int].vertex_keys@.contains(k) {
                assert(next[p as int] == patches@[p as int]);
            }
        }
        p = p + 1;
    }
    assert(patches@.take(p as int) =~= patches@);
    merged
}

/// The vertices of a prefix of the patches are no more than those of all.
proof fn lemma_total_vertices_prefix<V>(patches: Seq<SurfacePatch<V>>, n: int)
    requires
        0 <= n <= patches.len(),
    ensures
        total_vertices(patches.take(n)) <= total_vertices(patches),
    decreases patches.len() - n,
{
    if n < patches.len() {
        lemma_total_vertices_prefix(patches, n + 1);
        assert(patches.take(n + 1).drop_last() =~= patches.take(n));
    } else {
        assert(patches.take(n) =~= patches);
    }
}

impl<V: Copy> Octree<V> {
    /// The patches of the eight children of node `i`, in octant order.
    pub open spec fn child_patches(&self, i: int) -> Seq<SurfacePatch<V>> {
        let c = self.nodes@[i].children->0 as int;
        Seq::new(8, |o: int| self.nodes@[c + o].data->SurfacePatch_0)
    }

    /// Every child of node `i` holds a finished, well-formed patch.
    pub open spec fn children_finished(&self, i: int) -> bool {
        let c = self.nodes@[i].children->0 as int;
        &&& self.nodes@[i].children is Some
        &&& forall|o: int|
            0 <= o < 8 ==> {
                &&& (#[trigger] self.nodes@[c + o]).data is SurfacePatch
                &&& self.nodes@[c + o].data->SurfacePatch_0.wf()
            }
    }

    /// Stitches the patches of the eight children of node `i` into the
    /// patch of node `i`, over the subdomain of its cells; the children's
    /// payloads are consumed.
    pub fn stitch_node(&mut self, i: usize)
        requires
            old(self).wf(),
            i < old(self).nodes@.len(),
            old(self).children_finished(i as int),
        ensures
            final(self).wf(),
            final(self).geometry == old(self).geometry,
            final(self).nodes@.len() == old(self).nodes@.len(),
            forall|j: int|
                0 <= j < old(self).nodes@.len() ==> same_frame(
                    #[trigger] final(self).nodes@[j],
                    old(self).nodes@[j],
                ) && final(self).nodes@[j].children == old(self).nodes@[j].children,
            forall|j: int|
                0 <= j < old(self).nodes@.len() && j != i && !(old(self).nodes@[i as int].children->0 <= j
                    < old(self).nodes@[i as int].children->0 + 8) ==> #[trigger] final(self).nodes@[j]
                    == old(self).nodes@[j],
            forall|o: int|
                0 <= o < 8 ==> (#[trigger] final(self).nodes@[old(self).nodes@[i as int].children->0 + o]).data is Empty,
            final(self).nodes@[i as int].data is SurfacePatch,
            ({
                let r = final(self).nodes@[i as int].data->SurfacePatch_0;
                &&& r.wf()
                &&& r.subdomain.global == old(self).geometry.grid
                &&& r.subdomain.offset == old(self).nodes@[i as int].min_corner
                &&& r.subdomain.subdomain.n_cells_per_dim[0] == old(self).nodes@[i as int].max_corner[0]
                    - old(self).nodes@[i as int].min_corner[0]
                &&& r.subdomain.subdomain.n_cells_per_dim[1] == old(self).nodes@[i as int].max_corner[1]
                    - old(self).nodes@[i as int].min_corner[1]
                &&& r.subdomain.subdomain.n_cells_per_dim[2] == old(self).nodes@[i as int].max_corner[2]
                    - old(self).nodes@[i as int].min_corner[2]
                &&& keys_distinct(r.vertex_keys@)
                &&& forall|k: i64| #[trigger] r.vertex_keys@.contains(k) <==> some_patch_has_key(
                    old(self).child_patches(i as int),
                    k,
                )
                &&& triangle_keys(r.vertex_keys@, r.mesh.triangles@) == all_triangle_keys(
                    old(self).child_patches(i as int),
                )
                &&& (r.vertex_keys@, r.mesh.vertices@) == stitched_vertices(
                    old(self).child_patches(i as int),
                )
            }),
    {
        let ghost old_nodes = self.nodes@;
        let ghost kids = self.child_patches(i as int);
        assert(self.node_shape_ok(i as int));
        let c = match self.nodes[i].children {
            Some(c) => c,
            None => {
                return;
            },
        };
        let n_nodes = self.nodes.len();
        let mut patches: Vec<SurfacePatch<V>> = Vec::new();
        let mut o: usize = 0;
        while o < 8
            invariant
                o <= 8,
                old_nodes == old(self).nodes@,
                kids == old(self).child_patches(i as int),
                c == old_nodes[i as int].children->0,
                i < c,
                c + 8 <= old_nodes.len(),
                old_nodes.len() == n_nodes,
                old(self).children_finished(i as int),
                self.geometry == old(self).geometry,
                self.nodes@.len() == old_nodes.len(),
                patches@ == kids.take(o as int),
                forall|j: int|
                    0 <= j < old_nodes.len() ==> same_frame(#[trigger] self.nodes@[j], old_nodes[j])
                        && self.nodes@[j].children == old_nodes[j].children,
                forall|j: int|
                    0 <= j < old_nodes.len() && !(c <= j < c + o) ==> #[trigger] self.nodes@[j]
                        == old_nodes[j],
                forall|q: int| 0 <= q < o ==> (#[trigger] self.nodes@[c + q]).data is Empty,
            decreases 8 - o,
        {
            let child = &self.nodes[c + o];
            let mut taken = OctreeNode {
                min_corner: child.min_corner,
                max_corner: child.max_corner,
                depth: child.depth,
                children: child.children,
                data: NodeData::Empty,
            };
            self.nodes.set_and_swap(c + o, &mut taken);
            assert(taken == old_nodes[c + o]);
            assert(kids[o as int] == old_nodes[c + o].data->SurfacePatch_0);
            match taken.data {
                NodeData::SurfacePatch(p) => {
                    patches.push(p);
                },
                _ => {},
            }
            assert(patches@ =~= kids.take(o + 1));
            o = o + 1;
        }
        assert(kids.take(8) =~= kids);
        let lo = self.nodes[i].min_corner;
        let hi = self.nodes[i].max_corner;
        let subdomain = SubdomainGrid {
            global: self.geometry.grid,
            subdomain: UniformGrid { n_cells_per_dim: [hi[0] - lo[0], hi[1] - lo[1], hi[2] - lo[2]] },
            offset: lo,
        };
        let stitched = stitch_surface_patches(&patches, subdomain);
        let node = &self.nodes[i];
        let mut updated = OctreeNode {
            min_corner: node.min_corner,
            max_corner: node.max_corner,
            depth: node.depth,
            children: node.children,
            data: NodeData::SurfacePatch(stitched),
        };
        let ghost before = self.nodes@;
        self.nodes.set_and_swap(i, &mut updated);
        proof {
            let nodes = self.nodes@;
            assert forall|j: int| 0 <= j < nodes.len() implies same_frame(
                #[trigger] nodes[j],
                old_nodes[j],
            ) && nodes[j].children == old_nodes[j].children by {
                assert(nodes[j] == before.update(i as int, nodes[i as int])[j]);
            }
            assert forall|j: int| 0 <= j < nodes.len() implies #[trigger] self.node_shape_ok(j) by {
                assert(old(self).node_shape_ok(j));
                if nodes[j].children is Some {
                    let cj = nodes[j].children->0 as int;
                    assert forall|q: int| 0 <= q < 8 implies crate::octree::is_octant(
                        nodes[j],
                        #[trigger] nodes[cj + q],
                        q,
                    ) by {
                        assert(crate::octree::is_octant(old_nodes[j], old_nodes[cj + q], q));
                        assert(same_frame(nodes[cj + q], old_nodes[cj + q]));
                    }
                }
            }
            assert(same_frame(nodes[0], old_nodes[0]));
            assert forall|q: int| 0 <= q < 8 implies (#[trigger] nodes[c + q]).data is Empty by {
                assert(nodes[c + q] == before[c + q]);
            }
        }
    }
}

/// Stitching is deterministic: two patches that both are a stitch of the
/// same patches, as `stitch_surface_patches` states it, have the same
/// vertex keys, the same vertices and the same triangles.
pub proof fn lemma_stitch_deterministic<V>(
    patches: Seq<SurfacePatch<V>>,
    a: SurfacePatch<V>,
    b: SurfacePatch<V>,
)
    requires
        a.wf(),
        b.wf(),
        keys_distinct(a.vertex_keys@),
        triangle_keys(a.vertex_keys@, a.mesh.triangles@) == all_triangle_keys(patches),
        (a.vertex_keys@, a.mesh.vertices@) == stitched_vertices(patches),
        triangle_keys(b.vertex_keys@, b.mesh.triangles@) == all_triangle_keys(patches),
        (b.vertex_keys@, b.mesh.vertices@) == stitched_vertices(patches),
    ensures
        a.vertex_keys@ == b.vertex_keys@,
        a.mesh.vertices@ == b.mesh.vertices@,
        a.mesh.triangles@ == b.mesh.triangles@,
{
    lemma_triangles_from_keys(a, b);
}

/// What a stitch is made of: the vertex keys, the vertices, and the keys
/// of the corners of each triangle.
pub type Stitched<V> = (Seq<i64>, Seq<V>, Seq<[i64; 3]>);

/// The keys, vertices and triangle corner keys of `p`.
pub open spec fn patch_summary<V>(p: SurfacePatch<V>) -> Stitched<V> {
    (p.vertex_keys@, p.mesh.vertices@, triangle_keys(p.vertex_keys@, p.mesh.triangles@))
}

/// The stitch of `parts`, one after another: their vertices merged by key,
/// their triangles concatenated.
pub open spec fn combined<V>(parts: Seq<Stitched<V>>) -> Stitched<V>
    decreases parts.len(),
{
    if parts.len() == 0 {
        (seq![], seq![], seq![])
    } else {
        let prev = combined(parts.drop_last());
        let last = parts.last();
        let m = merged_vertices(prev.0, prev.1, last.0, last.1);
        (m.0, m.1, prev.2 + last.2)
    }
}

/// The stitch of the subtree of node `i`: at a leaf its own patch, at an
/// internal node the stitch of its eight children's stitches, in octant
/// order.
pub open spec fn subtree_stitched<V>(tree: Octree<V>, i: int) -> Stitched<V>
    decreases tree.nodes@.len() - i,
{
    let node = tree.nodes@[i];
    let c = node.children->0 as int;
    if 0 <= i < tree.nodes@.len() && node.children is Some && i < c && c + 8 <= tree.nodes@.len() {
        combined(
            seq![
                subtree_stitched(tree, c),
                subtree_stitched(tree, c + 1),
                subtree_stitched(tree, c + 2),
                subtree_stitched(tree, c + 3),
                subtree_stitched(tree, c + 4),
                subtree_stitched(tree, c + 5),
                subtree_stitched(tree, c + 6),
                subtree_stitched(tree, c + 7),
            ],
        )
    } else {
        patch_summary(node.data->SurfacePatch_0)
    }
}

/// Stitching patches is combining their summaries.
proof fn lemma_combined_patches<V>(patches: Seq<SurfacePatch<V>>)
    ensures
        combined(Seq::new(patches.len(), |k: int| patch_summary(patches[k]))) == (
            stitched_vertices(patches).0,
            stitched_vertices(patches).1,
            all_triangle_keys(patches),
        ),
    decreases patches.len(),
{
    let parts = Seq::new(patches.len(), |k: int| patch_summary(patches[k]));
    if patches.len() > 0 {
        let prev = patches.drop_last();
        lemma_combined_patches(prev);
        assert(parts.drop_last() =~= Seq::new(prev.len(), |k: int| patch_summary(prev[k])));
    }
}

impl<V: Copy> Octree<V> {
    /// Node `j` holds a finished, well-formed patch.
    pub open spec fn finished(&self, j: int) -> bool {
        &&& self.nodes@[j].data is SurfacePatch
        &&& self.nodes@[j].data->SurfacePatch_0.wf()
    }

    /// Node `j` is a child of a node at index `from` or later.
    pub open spec fn has_parent_from(&self, from: int, j: int) -> bool {
        exists|k: int|
            from <= k < self.nodes@.len() && (#[trigger] self.nodes@[k]).children is Some
                && self.nodes@[k].children->0 <= j < self.nodes@[k].children->0 + 8
    }

    /// Node `j` holds a finished patch that is the stitch of its subtree
    /// in `tree`.
    pub open spec fn done(&self, tree: Octree<V>, j: int) -> bool {
        &&& self.finished(j)
        &&& patch_summary(self.nodes@[j].data->SurfacePatch_0) == subtree_stitched(tree, j)
    }

    /// Stitches the tree bottom-up once every leaf holds its patch: each
    /// internal node, after all of its children, gets the patch stitched
    /// from theirs, in octant order, so that the root ends up with the
    /// stitch of the whole tree.
    pub fn stitch_all(&mut self)
        requires
            old(self).wf(),
            forall|j: int|
                0 <= j < old(self).nodes@.len() && (#[trigger] old(self).nodes@[j]).children is None
                    ==> old(self).finished(j),
        ensures
            final(self).wf(),
            final(self).geometry == old(self).geometry,
            final(self).nodes@.len() == old(self).nodes@.len(),
            forall|j: int|
                0 <= j < old(self).nodes@.len() ==> same_frame(
                    #[trigger] final(self).nodes@[j],
                    old(self).nodes@[j],
                ) && final(self).nodes@[j].children == old(self).nodes@[j].children,
            final(self).finished(0),
            patch_summary(final(self).nodes@[0].data->SurfacePatch_0) == subtree_stitched(
                *old(self),
                0,
            ),
            old(self).nodes@[0].children is Some ==> keys_distinct(
                final(self).nodes@[0].data->SurfacePatch_0.vertex_keys@,
            ),
    {
        let ghost old_nodes = self.nodes@;
        let ghost old_tree = *self;
        let mut i: usize = self.nodes.len();
        while i > 0
            invariant
                i <= old_nodes.len(),
                old_nodes == old(self).nodes@,
                old_tree == *old(self),
                old_tree.wf(),
                self.wf(),
                self.geometry == old(self).geometry,
                self.nodes@.len() == old_nodes.len(),
                forall|j: int|
                    0 <= j < old_nodes.len() ==> same_frame(#[trigger] self.nodes@[j], old_nodes[j])
                        && self.nodes@[j].children == old_nodes[j].children,
                forall|j: int| 0 <= j < i ==> #[trigger] self.nodes@[j] == old_nodes[j],
                forall|j: int|
                    0 <= j < old_nodes.len() && (#[trigger] old_nodes[j]).children is None
                        ==> old(self).finished(j),
                forall|j: int|
                    i <= j < old_nodes.len() ==> #[trigger] self.done(old_tree, j)
                        || self.has_parent_from(i as int, j),
                i == 0 && old_nodes[0].children is Some ==> keys_distinct(
                    self.nodes@[0].data->SurfacePatch_0.vertex_keys@,
                ),
            decreases i,
        {
            i = i - 1;
            let ghost before = *self;
            assert(self.node_shape_ok(i as int));
            assert(old_tree.node_shape_ok(i as int));
            if self.nodes[i].children.is_some() {
                let ghost c = self.nodes@[i as int].children->0 as int;
                assert forall|o: int| 0 <= o < 8 implies (#[trigger] self.done(old_tree, c + o)) by {
                    if self.has_parent_from(i + 1, c + o) {
                        let k = choose|k: int|
                            i + 1 <= k < self.nodes@.len() && (#[trigger] self.nodes@[k]).children is Some
                                && self.nodes@[k].children->0 <= c + o < self.nodes@[k].children->0 + 8;
                        assert(self.nodes@[i as int].children is Some);
                    }
                }
                assert forall|o: int| 0 <= o < 8 implies {
                    &&& (#[trigger] self.nodes@[c + o]).data is SurfacePatch
                    &&& self.nodes@[c + o].data->SurfacePatch_0.wf()
                } by {
                    assert(self.done(old_tree, c + o));
                }
                self.stitch_node(i);
                proof {
                    let kids = before.child_patches(i as int);
                    lemma_combined_patches(kids);
                    let parts = Seq::new(kids.len(), |k: int| patch_summary(kids[k]));
                    assert forall|o: int| 0 <= o < 8 implies parts[o] == subtree_stitched(
                        old_tree,
                        c + o,
                    ) by {
                        assert(before.done(old_tree, c + o));
                    }
                    assert(parts =~= seq![
                        subtree_stitched(old_tree, c),
                        subtree_stitched(old_tree, c + 1),
                        subtree_stitched(old_tree, c + 2),
                        subtree_stitched(old_tree, c + 3),
                        subtree_stitched(old_tree, c + 4),
                        subtree_stitched(old_tree, c + 5),
                        subtree_stitched(old_tree, c + 6),
                        subtree_stitched(old_tree, c + 7),
                    ]);
                    assert(self.done(old_tree, i as int));
                }
                assert forall|j: int| i <= j < old_nodes.len() implies #[trigger] self.done(old_tree, j)
                    || self.has_parent_from(i as int, j) by {
                    if j == i {
                    } else if c <= j < c + 8 {
                        assert(self.nodes@[i as int].children is Some);
                        assert(self.has_parent_from(i as int, j));
                    } else {
                        assert(before.done(old_tree, j) || before.has_parent_from(i + 1, j));
                        assert(self.nodes@[j] == before.nodes@[j]);
                        if before.has_parent_from(i + 1, j) {
                            let k = choose|k: int|
                                i + 1 <= k < before.nodes@.len() && (#[trigger] before.nodes@[k]).children is Some
                                    && before.nodes@[k].children->0 <= j < before.nodes@[k].children->0 + 8;
                            assert(same_frame(self.nodes@[k], before.nodes@[k]));
                            assert(self.nodes@[k].children == before.nodes@[k].children);
                        }
                    }
                }
            } else {
                assert(old_nodes[i as int].children is None);
                assert(self.done(old_tree, i as int));
                assert forall|j: int| i <= j < old_nodes.len() implies #[trigger] self.done(old_tree, j)
                    || self.has_parent_from(i as int, j) by {
                    if j > i && !self.done(old_tree, j) {
                        let k = choose|k: int|
                            i + 1 <= k < self.nodes@.len() && (#[trigger] self.nodes@[k]).children is Some
                                && self.nodes@[k].children->0 <= j < self.nodes@[k].children->0 + 8;
                    }
                }
            }
        }
        proof {
            assert(self.done(old_tree, 0) || self.has_parent_from(0, 0));
            if self.has_parent_from(0, 0) {
                let k = choose|k: int|
                0 <= k < self.nodes@.len() && (#[trigger] self.nodes@[k]).children is Some
                    && self.nodes@[k].children->0 <= 0 < self.nodes@[k].children->0 + 8;
                assert(self.node_shape_ok(k));
            }
        }
    }
}

/// Whether the three corners of each triangle in `tk` have distinct keys.
pub open spec fn corners_distinct(tk: Seq<[i64; 3]>) -> bool {
    forall|t: int|
        0 <= t < tk.len() ==> (#[trigger] tk[t])[0] != tk[t][1] && tk[t][0] != tk[t][2] && tk[t][1]
            != tk[t][2]
}

/// Stitching creates no degenerate triangle at a seam: where every
/// triangle of the patches has corners at three distinct grid locations,
/// every triangle of the stitched patch has three distinct vertices.
pub proof fn lemma_stitch_no_degenerate<V>(patches: Seq<SurfacePatch<V>>, r: SurfacePatch<V>)
    requires
        r.wf(),
        corners_distinct(all_triangle_keys(patches)),
        triangle_keys(r.vertex_keys@, r.mesh.triangles@) == all_triangle_keys(patches),
    ensures
        forall|t: int|
            0 <= t < r.mesh.triangles@.len() ==> (#[trigger] r.mesh.triangles@[t])[0]
                != r.mesh.triangles@[t][1] && r.mesh.triangles@[t][0] != r.mesh.triangles@[t][2]
                && r.mesh.triangles@[t][1] != r.mesh.triangles@[t][2],
{
    lemma_no_degenerate(r);
}


/// A triangle-by-key description fixes the triangles: two well-formed
/// patches with the same distinct keys and the same corner keys for each
/// triangle have the same triangles.
proof fn lemma_triangles_from_keys<V>(a: SurfacePatch<V>, b: SurfacePatch<V>)
    requires
        a.wf(),
        b.wf(),
        a.vertex_keys@ == b.vertex_keys@,
        keys_distinct(a.vertex_keys@),
        triangle_keys(a.vertex_keys@, a.mesh.triangles@) == triangle_keys(
            b.vertex_keys@,
            b.mesh.triangles@,
        ),
    ensures
        a.mesh.triangles@ == b.mesh.triangles@,
{
    let keys = a.vertex_keys@;
    let ta = a.mesh.triangles@;
    let tb = b.mesh.triangles@;
    assert(triangle_keys(keys, ta).len() == triangle_keys(keys, tb).len());
    assert forall|t: int| 0 <= t < ta.len() implies ta[t] == tb[t] by {
        assert(triangle_keys(keys, ta)[t] == triangle_keys(keys, tb)[t]);
        assert(ta[t] =~= tb[t]);
    }
    assert(ta =~= tb);
}

/// Stitching a tree is deterministic: two patches that both are the stitch
/// of the whole of `tree`, as `stitch_all` leaves it at the root, have the
/// same vertex keys, the same vertices and the same triangles.
pub proof fn lemma_stitch_all_deterministic<V>(tree: Octree<V>, a: SurfacePatch<V>, b: SurfacePatch<V>)
    requires
        a.wf(),
        b.wf(),
        keys_distinct(a.vertex_keys@),
        patch_summary(a) == subtree_stitched(tree, 0),
        patch_summary(b) == subtree_stitched(tree, 0),
    ensures
        a.vertex_keys@ == b.vertex_keys@,
        a.mesh.vertices@ == b.mesh.vertices@,
        a.mesh.triangles@ == b.mesh.triangles@,
{
    lemma_triangles_from_keys(a, b);
}

/// A patch whose triangles have corners at three distinct keys has no
/// degenerate triangle.
pub proof fn lemma_no_degenerate<V>(r: SurfacePatch<V>)
    requires
        r.wf(),
        corners_distinct(triangle_keys(r.vertex_keys@, r.mesh.triangles@)),
    ensures
        forall|t: int|
            0 <= t < r.mesh.triangles@.len() ==> (#[trigger] r.mesh.triangles@[t])[0]
                != r.mesh.triangles@[t][1] && r.mesh.triangles@[t][0] != r.mesh.triangles@[t][2]
                && r.mesh.triangles@[t][1] != r.mesh.triangles@[t][2],
{
    let tk = triangle_keys(r.vertex_keys@, r.mesh.triangles@);
    assert forall|t: int| 0 <= t < r.mesh.triangles@.len() implies (#[trigger] r.mesh.triangles@[t])[0]
        != r.mesh.triangles@[t][1] && r.mesh.triangles@[t][0] != r.mesh.triangles@[t][2]
        && r.mesh.triangles@[t][1] != r.mesh.triangles@[t][2] by {
        assert(tk[t][0] != tk[t][1] && tk[t][0] != tk[t][2] && tk[t][1] != tk[t][2]);
    }
}

/// Combining keeps the triangles of the parts, one part after another.
proof fn lemma_combined_corners_distinct<V>(parts: Seq<Stitched<V>>)
    requires
        forall|k: int| 0 <= k < parts.len() ==> corners_distinct(#[trigger] parts[k].2),
    ensures
        corners_distinct(combined(parts).2),
    decreases parts.len(),
{
    if parts.len() > 0 {
        lemma_combined_corners_distinct(parts.drop_last());
        let a = combined(parts.drop_last()).2;
        let b = parts.last().2;
        assert(corners_distinct(b));
        assert forall|t: int| 0 <= t < (a + b).len() implies (#[trigger] (a + b)[t])[0] != (a
            + b)[t][1] && (a + b)[t][0] != (a + b)[t][2] && (a + b)[t][1] != (a + b)[t][2] by {
            if t < a.len() {
                assert((a + b)[t] == a[t]);
            } else {
                assert((a + b)[t] == b[t - a.len()]);
            }
        }
    }
}

/// The eight stitches of the children of node `i`, in octant order.
pub open spec fn children_parts<V>(tree: Octree<V>, c: int) -> Seq<Stitched<V>> {
    seq![
        subtree_stitched(tree, c),
        subtree_stitched(tree, c + 1),
        subtree_stitched(tree, c + 2),
        subtree_stitched(tree, c + 3),
        subtree_stitched(tree, c + 4),
        subtree_stitched(tree, c + 5),
        subtree_stitched(tree, c + 6),
        subtree_stitched(tree, c + 7),
    ]
}

/// Where the triangles of every leaf patch have corners at three distinct
/// keys, so have those of the stitch of every subtree: stitching creates
/// no degenerate triangle at a seam.
pub proof fn lemma_subtree_no_degenerate<V>(tree: Octree<V>, i: int)
    requires
        tree.wf(),
        0 <= i < tree.nodes@.len(),
        forall|j: int|
            0 <= j < tree.nodes@.len() && (#[trigger] tree.nodes@[j]).children is None
                ==> corners_distinct(patch_summary(tree.nodes@[j].data->SurfacePatch_0).2),
    ensures
        corners_distinct(subtree_stitched(tree, i).2),
    decreases tree.nodes@.len() - i,
{
    assert(tree.node_shape_ok(i));
    let node = tree.nodes@[i];
    if node.children is Some {
        let c = node.children->0 as int;
        let parts = children_parts(tree, c);
        assert forall|k: int| 0 <= k < parts.len() implies corners_distinct(#[trigger] parts[k].2) by {
            lemma_subtree_no_degenerate(tree, c + k);
        }
        lemma_combined_corners_distinct(parts);
    }
}

/// Merging keeps every key of either side, and no other.
proof fn lemma_merged_keys<V>(keys: Seq<i64>, verts: Seq<V>, pk: Seq<i64>, pv: Seq<V>, x: i64)
    ensures
        merged_vertices(keys, verts, pk, pv).0.contains(x) <==> keys.contains(x) || pk.contains(x),
    decreases pk.len(),
{
    if pk.len() > 0 {
        let prev = pk.drop_last();
        lemma_merged_keys(keys, verts, prev, pv, x);
        let m = merged_vertices(keys, verts, prev, pv);
        if pk.contains(x) && !prev.contains(x) {
            let j = choose|j: int| 0 <= j < pk.len() && pk[j] == x;
            if j < prev.len() {
                assert(prev[j] == x);
            }
            assert(pk.last() == x);
            if !m.0.contains(x) {
                assert(m.0.push(x)[m.0.len() as int] == x);
            }
        }
        if prev.contains(x) {
            let j = choose|j: int| 0 <= j < prev.len() && prev[j] == x;
            assert(pk[j] == x);
        }
        if !m.0.contains(pk.last()) {
            if m.0.push(pk.last()).contains(x) && x != pk.last() {
                let j = choose|j: int| 0 <= j < m.0.len() + 1 && m.0.push(pk.last())[j] == x;
                assert(m.0[j] == x);
            }
            if m.0.contains(x) {
                let j = choose|j: int| 0 <= j < m.0.len() && m.0[j] == x;
                assert(m.0.push(pk.last())[j] == x);
            }
        }
        if x == pk.last() {
            assert(pk[pk.len() - 1] == x);
        }
    }
}

/// A key of one of the parts is a key of their stitch.
proof fn lemma_combined_keys<V>(parts: Seq<Stitched<V>>, k: int, x: i64)
    requires
        0 <= k < parts.len(),
        parts[k].0.contains(x),
    ensures
        combined(parts).0.contains(x),
    decreases parts.len(),
{
    let prev = combined(parts.drop_last());
    lemma_merged_keys(prev.0, prev.1, parts.last().0, parts.last().1, x);
    if k < parts.len() - 1 {
        assert(parts.drop_last()[k] == parts[k]);
        lemma_combined_keys(parts.drop_last(), k, x);
    }
}

/// Every key of the stitch of a subtree is a key of the stitch of the whole
/// tree: a vertex that a leaf generated on a face it shares with a
/// neighbour ends up in the root's patch, whose keys are distinct, so
/// exactly once.
pub proof fn lemma_key_reaches_root<V>(tree: Octree<V>, j: int, x: i64)
    requires
        tree.wf(),
        tree.all_reachable(),
        0 <= j < tree.nodes@.len(),
        subtree_stitched(tree, j).0.contains(x),
    ensures
        subtree_stitched(tree, 0).0.contains(x),
    decreases j,
{
    if j > 0 {
        assert(tree.has_parent(j));
        let q = choose|q: int|
            0 <= q < j && (#[trigger] tree.nodes@[q]).children is Some && tree.nodes@[q].children->0
                <= j < tree.nodes@[q].children->0 + 8;
        let c = tree.nodes@[q].children->0 as int;
        assert(tree.node_shape_ok(q));
        let parts = children_parts(tree, c);
        assert(parts[j - c] == subtree_stitched(tree, j));
        lemma_combined_keys(parts, j - c, x);
        lemma_key_reaches_root(tree, q, x);
    }
}

/// Combining parts with no keys, vertices or triangles gives none.
proof fn lemma_combined_empty<V>(parts: Seq<Stitched<V>>)
    requires
        forall|k: int|
            0 <= k < parts.len() ==> (#[trigger] parts[k]).0.len() == 0 && parts[k].1.len() == 0
                && parts[k].2.len() == 0,
    ensures
        combined(parts).0.len() == 0,
        combined(parts).1.len() == 0,
        combined(parts).2.len() == 0,
    decreases parts.len(),
{
    if parts.len() > 0 {
        lemma_combined_empty(parts.drop_last());
        assert(parts[parts.len() - 1].0.len() == 0);
    }
}

/// Where every leaf patch is empty, the stitch of every subtree is empty.
pub proof fn lemma_subtree_empty<V>(tree: Octree<V>, i: int)
    requires
        tree.wf(),
        0 <= i < tree.nodes@.len(),
        forall|j: int|
            0 <= j < tree.nodes@.len() && (#[trigger] tree.nodes@[j]).children is None ==> {
                &&& tree.nodes@[j].data->SurfacePatch_0.vertex_keys@.len() == 0
                &&& tree.nodes@[j].data->SurfacePatch_0.mesh.vertices@.len() == 0
                &&& tree.nodes@[j].data->SurfacePatch_0.mesh.triangles@.len() == 0
            },
    ensures
        subtree_stitched(tree, i).0.len() == 0,
        subtree_stitched(tree, i).1.len() == 0,
        subtree_stitched(tree, i).2.len() == 0,
    decreases tree.nodes@.len() - i,
{
    assert(tree.node_shape_ok(i));
    let node = tree.nodes@[i];
    if node.children is Some {
        let c = node.children->0 as int;
        let parts = children_parts(tree, c);
        assert forall|k: int| 0 <= k < parts.len() implies (#[trigger] parts[k]).0.len() == 0
            && parts[k].1.len() == 0 && parts[k].2.len() == 0 by {
            lemma_subtree_empty(tree, c + k);
        }
        lemma_combined_empty(parts);
    }
}

/// Whether two triangles have the same three corners, in any order.
pub open spec fn same_corner_set<T>(x: [T; 3], y: [T; 3]) -> bool {
    &&& (x[0] == y[0] || x[0] == y[1] || x[0] == y[2])
    &&& (x[1] == y[0] || x[1] == y[1] || x[1] == y[2])
    &&& (x[2] == y[0] || x[2] == y[1] || x[2] == y[2])
    &&& (y[0] == x[0] || y[0] == x[1] || y[0] == x[2])
    &&& (y[1] == x[0] || y[1] == x[1] || y[1] == x[2])
    &&& (y[2] == x[0] || y[2] == x[1] || y[2] == x[2])
}

/// Where no two triangles of the leaves, taken together, share their three
/// corner keys, the stitched patch has no two triangles on the same three
/// vertices: stitching creates no duplicate triangle at a seam.
pub proof fn lemma_no_duplicate_triangles<V>(tree: Octree<V>, r: SurfacePatch<V>)
    requires
        r.wf(),
        patch_summary(r) == subtree_stitched(tree, 0),
        forall|a: int, b: int|
            0 <= a < b < subtree_stitched(tree, 0).2.len() ==> !same_corner_set(
                #[trigger] subtree_stitched(tree, 0).2[a],
                #[trigger] subtree_stitched(tree, 0).2[b],
            ),
    ensures
        forall|a: int, b: int|
            0 <= a < b < r.mesh.triangles@.len() ==> !same_corner_set(
                #[trigger] r.mesh.triangles@[a],
                #[trigger] r.mesh.triangles@[b],
            ),
{
    let keys = r.vertex_keys@;
    let tris = r.mesh.triangles@;
    let tk = triangle_keys(keys, tris);
    assert forall|a: int, b: int| 0 <= a < b < tris.len() implies !same_corner_set(
        #[trigger] tris[a],
        #[trigger] tris[b],
    ) by {
        let st = subtree_stitched(tree, 0).2;
        assert(st == tk);
        assert(!same_corner_set(st[a], st[b]));
        let x = tris[a];
        let y = tris[b];
        assert(tk[a] == [keys[x[0] as int], keys[x[1] as int], keys[x[2] as int]]);
        assert(tk[b] == [keys[y[0] as int], keys[y[1] as int], keys[y[2] as int]]);
        if same_corner_set(x, y) {
            assert(same_corner_set(tk[a], tk[b]));
        }
    }
}

/// On a tree of depth one the root's stitch is the stitch of the patches of
/// its eight leaves, in octant order.
pub proof fn lemma_depth_one<V: Copy>(tree: Octree<V>)
    requires
        tree.wf(),
        tree.nodes@[0].children is Some,
        forall|o: int|
            0 <= o < 8 ==> (#[trigger] tree.nodes@[tree.nodes@[0].children->0 + o]).children
                is None,
    ensures
        subtree_stitched(tree, 0) == (
            stitched_vertices(tree.child_patches(0)).0,
            stitched_vertices(tree.child_patches(0)).1,
            all_triangle_keys(tree.child_patches(0)),
        ),
{
    assert(tree.node_shape_ok(0));
    let c = tree.nodes@[0].children->0 as int;
    let kids = tree.child_patches(0);
    lemma_combined_patches(kids);
    assert forall|o: int| 0 <= o < 8 implies subtree_stitched(tree, c + o) == patch_summary(
        kids[o],
    ) by {
        assert(tree.nodes@[c + o].children is None);
    }
    assert(Seq::new(kids.len(), |k: int| patch_summary(kids[k])) =~= children_parts(tree, c));
}


/// The mesh that `stitch_all` leaves at the root has no degenerate
/// triangle where no leaf patch has one at the level of keys.
pub proof fn lemma_stitched_root_no_degenerate<V>(tree: Octree<V>, r: SurfacePatch<V>)
    requires
        tree.wf(),
        r.wf(),
        patch_summary(r) == subtree_stitched(tree, 0),
        forall|j: int|
            0 <= j < tree.nodes@.len() && (#[trigger] tree.nodes@[j]).children is None
                ==> corners_distinct(patch_summary(tree.nodes@[j].data->SurfacePatch_0).2),
    ensures
        forall|t: int|
            0 <= t < r.mesh.triangles@.len() ==> (#[trigger] r.mesh.triangles@[t])[0]
                != r.mesh.triangles@[t][1] && r.mesh.triangles@[t][0] != r.mesh.triangles@[t][2]
                && r.mesh.triangles@[t][1] != r.mesh.triangles@[t][2],
{
    lemma_subtree_no_degenerate(tree, 0);
    lemma_no_degenerate(r);
}

} // verus!
