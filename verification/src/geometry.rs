use vstd::prelude::*;

verus! {

/// A list of triangles, each with its own three vertices.
#[derive(Clone, Debug)]
pub struct Mesh<V> {
    pub vertices: Vec<(V, V, V)>,
}

/// The triangle that the index triple `corner` picks from `vertices`.
pub open spec fn picked<V>(vertices: Seq<V>, corner: (usize, usize, usize)) -> (V, V, V) {
    (vertices[corner.0 as int], vertices[corner.1 as int], vertices[corner.2 as int])
}

/// Every index of `corner` names a vertex.
pub open spec fn names_vertices(count: nat, corner: (usize, usize, usize)) -> bool {
    corner.0 < count && corner.1 < count && corner.2 < count
}

impl<V: Copy> Mesh<V> {
    /// The mesh of the triangles that `triangles` picks from `vertices`, in
    /// the same order.
    pub fn from_triangles(vertices: &Vec<V>, triangles: &Vec<(usize, usize, usize)>) -> (mesh: Mesh<V>)
        requires
            forall|i: int|
                0 <= i < triangles@.len() ==> names_vertices(vertices@.len(), #[trigger] triangles@[i]),
        ensures
            mesh.vertices@ == triangles@.map_values(
                |corner: (usize, usize, usize)| picked(vertices@, corner),
            ),
    {
        let mut picked_triangles: Vec<(V, V, V)> = Vec::new();
        let mut i: usize = 0;
        while i < triangles.len()
            invariant
                i <= triangles@.len(),
                picked_triangles@.len() == i,
                forall|k: int|
                    0 <= k < triangles@.len() ==> names_vertices(
                        vertices@.len(),
                        #[trigger] triangles@[k],
                    ),
                forall|k: int|
                    0 <= k < i ==> #[trigger] picked_triangles@[k] == picked(vertices@, triangles@[k]),
            decreases triangles@.len() - i,
        {
            let corner: (usize, usize, usize) = triangles[i];
            picked_triangles.push((vertices[corner.0], vertices[corner.1], vertices[corner.2]));
            i = i + 1;
        }
        assert(picked_triangles@ =~= triangles@.map_values(
            |corner: (usize, usize, usize)| picked(vertices@, corner),
        ));
        Mesh { vertices: picked_triangles }
    }
}

} // verus!
