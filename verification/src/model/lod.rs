//! Optimized forms of a subset.

use crate::model::optimize::{
    flatten_triangles, flattened, indices_below, only_reorders, optimize_geometry, optimizes,
    OptimizeRun,
};
use crate::model::simplify::simplifiable;
use crate::model::weld::WeldKey;
use crate::model::{same_subset, tiles, Subset, Vertex};
use vstd::prelude::*;

verus! {

/// The subset can be optimized: its vertices are few enough for 16-bit indices, its triangles refer
/// to them and can be counted, each has a key, and components tile what is drawn.
pub open spec fn can_optimize(subset: Subset, keys: Seq<WeldKey>, indices: Seq<u32>) -> bool {
    &&& subset.vertices@.len() <= 0x1_0000
    &&& keys.len() == subset.vertices@.len()
    &&& indices.len() % 3 == 0
    &&& indices.len() <= u32::MAX
    &&& indices_below(indices, subset.vertices@.len() as int)
    &&& tiles(subset.components@, indices.len() as int / 3)
}

/// The vertices and triangles are those of the subset, optimized.
pub open spec fn is_optimized<O: Fn(Vec<u32>, &Vec<Vertex>) -> Vec<u32>>(
    overdraw: O,
    source: Subset,
    keys: Seq<WeldKey>,
    indices: Seq<u32>,
    result: Subset,
) -> bool {
    exists|run: OptimizeRun| #[trigger]
        optimizes(
            overdraw,
            source.vertices@,
            keys,
            indices,
            source.components@,
            run,
            result.vertices@,
            result.triangles@,
        )
}

/// The subsets agree in all but geometry.
pub open spec fn same_besides_geometry(a: Subset, b: Subset) -> bool {
    &&& a.bounding_sphere == b.bounding_sphere
    &&& a.bounding_box == b.bounding_box
    &&& a.components@ == b.components@
    &&& a.uv_bounds@ == b.uv_bounds@
    &&& a.has_alpha == b.has_alpha
    &&& a.has_uv_controller == b.has_uv_controller
    &&& a.emissive == b.emissive
    &&& a.texture == b.texture
}

/// Corners of triangles within range give indices within range.
pub proof fn lemma_flattened_below(triangles: Seq<[u16; 3]>, count: int)
    requires
        forall|t: int, c: int|
            0 <= t < triangles.len() && 0 <= c < 3 ==> #[trigger] triangles[t]@[c] < count,
    ensures
        indices_below(flattened(triangles), count),
{
    assert forall|p: int| 0 <= p < flattened(triangles).len() implies #[trigger] flattened(
        triangles,
    )[p] < count by {
        assert(triangles[p / 3]@[p % 3] < count);
    }
}

impl Subset {
    /// Optimizes the subset in place. A subset without vertices or triangles stays as it is.
    pub fn optimize_with<O: Fn(Vec<u32>, &Vec<Vertex>) -> Vec<u32>>(
        &mut self,
        overdraw: &O,
        keys: &[WeldKey],
    )
        requires
            only_reorders(*overdraw),
            can_optimize(*old(self), keys@, flattened(old(self).triangles@)),
        ensures
            same_besides_geometry(*final(self), *old(self)),
            if old(self).vertices@.len() == 0 || old(self).triangles@.len() == 0 {
                *final(self) == *old(self)
            } else {
                is_optimized(
                    *overdraw,
                    *old(self),
                    keys@,
                    flattened(old(self).triangles@),
                    *final(self),
                )
            },
    {
        if self.vertices.len() == 0 || self.triangles.len() == 0 {
            return;
        }
        let indices: Vec<u32> = flatten_triangles(self.triangles.as_slice());
        let (vertices, triangles) = optimize_geometry(
            overdraw,
            self.vertices.as_slice(),
            keys,
            indices.as_slice(),
            self.components.as_slice(),
        );
        let ghost run = choose|run: OptimizeRun| #[trigger]
            optimizes(
                *overdraw,
                old(self).vertices@,
                keys@,
                indices@,
                old(self).components@,
                run,
                vertices@,
                triangles@,
            );
        self.vertices = vertices;
        self.triangles = triangles;
        assert(optimizes(
            *overdraw,
            old(self).vertices@,
            keys@,
            flattened(old(self).triangles@),
            old(self).components@,
            run,
            self.vertices@,
            self.triangles@,
        ));
    }

    /// The merge form of a subset. `simplified` holds the indices of its simplified triangles, where
    /// it is simplified; a subset with alpha never is.
    pub fn build_merge_lod_from<O: Fn(Vec<u32>, &Vec<Vertex>) -> Vec<u32>>(
        overdraw: &O,
        source: &Subset,
        keys: &[WeldKey],
        simplified: Option<Vec<u32>>,
    ) -> (r: Subset)
        requires
            only_reorders(*overdraw),
            simplified is Some ==> simplifiable(*source),
            can_optimize(*source, keys@, lod_indices(*source, simplified)),
        ensures
            same_besides_geometry(r, *source),
            if source.vertices@.len() == 0 || source.triangles@.len() == 0 {
                same_subset(r, *source)
            } else if lod_indices(*source, simplified).len() == 0 {
                r.vertices@ == source.vertices@ && r.triangles@.len() == 0
            } else {
                is_optimized(*overdraw, *source, keys@, lod_indices(*source, simplified), r)
            },
    {
        let mut r = source.clone();
        if source.vertices.len() == 0 || source.triangles.len() == 0 {
            return r;
        }
        let indices: Vec<u32> = match simplified {
            Some(indices) => indices,
            None => flatten_triangles(source.triangles.as_slice()),
        };
        if indices.len() == 0 {
            r.triangles = Vec::new();
            return r;
        }
        let (vertices, triangles) = optimize_geometry(
            overdraw,
            source.vertices.as_slice(),
            keys,
            indices.as_slice(),
            source.components.as_slice(),
        );
        let ghost run = choose|run: OptimizeRun| #[trigger]
            optimizes(
                *overdraw,
                source.vertices@,
                keys@,
                indices@,
                source.components@,
                run,
                vertices@,
                triangles@,
            );
        r.vertices = vertices;
        r.triangles = triangles;
        assert(optimizes(
            *overdraw,
            source.vertices@,
            keys@,
            lod_indices(*source, simplified),
            source.components@,
            run,
            r.vertices@,
            r.triangles@,
        ));
        r
    }
}

/// The indices of the merge form: the simplified ones, or all.
pub open spec fn lod_indices(source: Subset, simplified: Option<Vec<u32>>) -> Seq<u32> {
    match simplified {
        Some(indices) => indices@,
        None => flattened(source.triangles@),
    }
}

} // verus!
