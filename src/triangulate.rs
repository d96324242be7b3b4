//! Triangulation of convex polygons into a triangle list.

use vstd::prelude::*;

verus! {

/// Triangle `k` of the fan over `v`: the first vertex and the edge from
/// vertex `k + 1` to vertex `k + 2`.
pub open spec fn fan_vertex<T>(v: Seq<T>, at: int) -> T {
    if at % 3 == 0 {
        v[0]
    } else if at % 3 == 1 {
        v[at / 3 + 1]
    } else {
        v[at / 3 + 2]
    }
}

/// Splits the convex polygon `vertices` into the fan of triangles that share
/// its first vertex, three vertices per triangle: `(v0, v1, v2), (v0, v2, v3),
/// ...`. A polygon of fewer than three vertices gives no triangle.
pub fn triangulate_convex<T: Copy>(vertices: &[T]) -> (r: Vec<T>)
    requires
        3 * vertices@.len() <= usize::MAX,
    ensures
        vertices@.len() < 3 ==> r@.len() == 0,
        vertices@.len() >= 3 ==> r@.len() == 3 * (vertices@.len() - 2),
        forall|at: int| 0 <= at < r@.len() ==> #[trigger] r@[at] == fan_vertex(vertices@, at),
{
    let mut shape: Vec<T> = Vec::new();
    let n = vertices.len();
    let mut i: usize = 2;
    while i < n
        invariant
            2 <= i,
            n == vertices@.len(),
            3 * n <= usize::MAX,
            i <= n || i == 2,
            shape@.len() == 3 * (i - 2),
            forall|at: int| 0 <= at < shape@.len() ==> #[trigger] shape@[at] == fan_vertex(vertices@, at),
        decreases n - i,
    {
        let ghost start = shape@.len() as int;
        shape.push(vertices[0]);
        shape.push(vertices[i - 1]);
        shape.push(vertices[i]);
        proof {
            assert(start / 3 + 1 == i - 1 && (start + 1) / 3 + 1 == i - 1 && (start + 2) / 3 + 2 == i);
            assert(start % 3 == 0 && (start + 1) % 3 == 1 && (start + 2) % 3 == 2);
        }
        i = i + 1;
    }
    shape
}

} // verus!
