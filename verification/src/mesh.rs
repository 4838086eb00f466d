//! Faces as triangles.
//!
//! A triangle is three corners in a fixed order. The functions here arrange
//! the corners of larger faces into triangles; what a corner is (a position,
//! or the number of a vertex in a list) is up to the caller.

use vstd::prelude::*;

verus! {

/// The two triangles of a four-cornered face: they share the diagonal
/// between the first corner and the third.
pub open spec fn rectangle_triangles<P>(vertices: [P; 4]) -> Seq<[P; 3]> {
    seq![[vertices[0], vertices[1], vertices[2]], [vertices[2], vertices[3], vertices[0]]]
}

/// Splits a four-cornered face into the triangles of corners 0, 1, 2 and of
/// corners 2, 3, 0.
pub fn rectangle<P: Copy>(vertices: [P; 4]) -> (r: [[P; 3]; 2])
    ensures
        r@ == rectangle_triangles(vertices),
{
    let r = [[vertices[0], vertices[1], vertices[2]], [vertices[2], vertices[3], vertices[0]]];
    assert(r@ =~= rectangle_triangles(vertices));
    r
}

/// The triangles of a strip: every three corners in a row make one.
pub open spec fn strip_triangles<P>(vertices: Seq<P>) -> Seq<[P; 3]> {
    Seq::new(
        (vertices.len() - 2) as nat,
        |i: int| [vertices[i], vertices[i + 1], vertices[i + 2]],
    )
}

/// Arranges a run of at least three corners into a strip of triangles: the
/// triangle of corners `i`, `i + 1`, `i + 2` for each `i` that has them.
pub fn triangle_strip<P: Copy>(vertices: &Vec<P>) -> (r: Vec<[P; 3]>)
    requires
        vertices@.len() >= 3,
    ensures
        r@ == strip_triangles(vertices@),
{
    let mut out: Vec<[P; 3]> = Vec::new();
    let count: usize = vertices.len() - 2;
    let mut i: usize = 0;
    while i < count
        invariant
            count == vertices@.len() - 2,
            vertices@.len() <= usize::MAX,
            i <= count,
            out@.len() == i,
            forall|k: int| 0 <= k < i ==> #[trigger] out@[k] == strip_triangles(vertices@)[k],
        decreases count - i,
    {
        out.push([vertices[i], vertices[i + 1], vertices[i + 2]]);
        i = i + 1;
    }
    assert(out@ =~= strip_triangles(vertices@));
    out
}

} // verus!
