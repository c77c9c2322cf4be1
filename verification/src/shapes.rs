//! Tessellation of a unit cube into textured triangles.
//!
//! Positions are whole numbers of blocks measured from the chunk origin and
//! texture coordinates are whole texels of the atlas, so a mesh is exact
//! integer data; turning it into the floating-point layout a graphics API
//! wants is left to the renderer.

use vstd::prelude::*;

verus! {

/// Which faces of a block are drawn, in the order
/// right (+x), left (-x), top (+y), bottom (-y), front (+z), back (-z).
pub type Sides = [bool; 6];

pub const RIGHT: usize = 0;

pub const LEFT: usize = 1;

pub const TOP: usize = 2;

pub const BOTTOM: usize = 3;

pub const FRONT: usize = 4;

pub const BACK: usize = 5;

/// A rectangle of the texture atlas, in texels.
#[derive(Clone, Copy, Debug, PartialEq, Eq, Structural)]
pub struct UVCoords {
    pub left: u32,
    pub bottom: u32,
    pub right: u32,
    pub top: u32,
}

/// One mesh vertex: a position and a texture coordinate.
#[derive(Clone, Copy, Debug, PartialEq, Eq, Structural)]
pub struct Vertex {
    pub x: u32,
    pub y: u32,
    pub z: u32,
    pub u: u32,
    pub v: u32,
}

/// The outward unit normal of a face.
pub open spec fn face_normal(face: int) -> (int, int, int) {
    if face == RIGHT {
        (1, 0, 0)
    } else if face == LEFT {
        (-1, 0, 0)
    } else if face == TOP {
        (0, 1, 0)
    } else if face == BOTTOM {
        (0, -1, 0)
    } else if face == FRONT {
        (0, 0, 1)
    } else {
        (0, 0, -1)
    }
}

/// Corner `k` of a face of the unit cube at the origin; the corners are
/// numbered in the order bottom-left, bottom-right, top-right, top-left of
/// the face's texture.
pub open spec fn face_corner(face: int, k: int) -> (int, int, int) {
    if face == RIGHT {
        if k == 0 {
            (1, 0, 1)
        } else if k == 1 {
            (1, 0, 0)
        } else if k == 2 {
            (1, 1, 0)
        } else {
            (1, 1, 1)
        }
    } else if face == LEFT {
        if k == 0 {
            (0, 0, 0)
        } else if k == 1 {
            (0, 0, 1)
        } else if k == 2 {
            (0, 1, 1)
        } else {
            (0, 1, 0)
        }
    } else if face == TOP {
        if k == 0 {
            (0, 1, 1)
        } else if k == 1 {
            (1, 1, 1)
        } else if k == 2 {
            (1, 1, 0)
        } else {
            (0, 1, 0)
        }
    } else if face == BOTTOM {
        if k == 0 {
            (0, 0, 0)
        } else if k == 1 {
            (1, 0, 0)
        } else if k == 2 {
            (1, 0, 1)
        } else {
            (0, 0, 1)
        }
    } else if face == FRONT {
        if k == 0 {
            (0, 0, 1)
        } else if k == 1 {
            (1, 0, 1)
        } else if k == 2 {
            (1, 1, 1)
        } else {
            (0, 1, 1)
        }
    } else {
        if k == 0 {
            (1, 0, 0)
        } else if k == 1 {
            (0, 0, 0)
        } else if k == 2 {
            (0, 1, 0)
        } else {
            (1, 1, 0)
        }
    }
}

/// The vertex at corner `offset` of the cube at `(x, y, z)`, textured with
/// the given texel.
pub open spec fn vertex_at(x: int, y: int, z: int, offset: (int, int, int), u: u32, v: u32)
    -> Vertex {
    Vertex {
        x: (x + offset.0) as u32,
        y: (y + offset.1) as u32,
        z: (z + offset.2) as u32,
        u,
        v,
    }
}

/// The six vertices of one face of the cube at `(x, y, z)`: the two
/// triangles over corners 0, 1, 2 and corners 2, 3, 0.
pub open spec fn face_vertices(face: int, x: int, y: int, z: int, uv: UVCoords) -> Seq<Vertex> {
    seq![
        vertex_at(x, y, z, face_corner(face, 0), uv.left, uv.bottom),
        vertex_at(x, y, z, face_corner(face, 1), uv.right, uv.bottom),
        vertex_at(x, y, z, face_corner(face, 2), uv.right, uv.top),
        vertex_at(x, y, z, face_corner(face, 2), uv.right, uv.top),
        vertex_at(x, y, z, face_corner(face, 3), uv.left, uv.top),
        vertex_at(x, y, z, face_corner(face, 0), uv.left, uv.bottom),
    ]
}

/// The vertices a face contributes: its six vertices if it is drawn, none
/// otherwise.
pub open spec fn side_vertices(
    face: int,
    x: int,
    y: int,
    z: int,
    uvs: Seq<UVCoords>,
    sides: Seq<bool>,
) -> Seq<Vertex> {
    if sides[face] {
        face_vertices(face, x, y, z, uvs[face])
    } else {
        Seq::empty()
    }
}

/// The face that is emitted in position `k` of a cube's vertices: front,
/// back, left, right, top, bottom.
pub open spec fn emit_order(k: int) -> int {
    if k == 0 {
        FRONT as int
    } else if k == 1 {
        BACK as int
    } else if k == 2 {
        LEFT as int
    } else if k == 3 {
        RIGHT as int
    } else if k == 4 {
        TOP as int
    } else {
        BOTTOM as int
    }
}

/// The vertices of the first `n` faces, in emission order, of the cube at
/// `(x, y, z)`.
pub open spec fn cube_prefix(n: nat, x: int, y: int, z: int, uvs: Seq<UVCoords>, sides: Seq<bool>)
    -> Seq<Vertex>
    decreases n,
{
    if n == 0 {
        Seq::empty()
    } else {
        cube_prefix((n - 1) as nat, x, y, z, uvs, sides) + side_vertices(
            emit_order(n - 1),
            x,
            y,
            z,
            uvs,
            sides,
        )
    }
}

/// The vertices of the cube at `(x, y, z)`: the drawn faces in the order
/// front, back, left, right, top, bottom.
pub open spec fn cube_vertices(x: int, y: int, z: int, uvs: Seq<UVCoords>, sides: Seq<bool>)
    -> Seq<Vertex> {
    cube_prefix(6, x, y, z, uvs, sides)
}

/// How many of the first `n` faces, in emission order, are drawn.
pub open spec fn count_prefix(n: nat, sides: Seq<bool>) -> nat
    decreases n,
{
    if n == 0 {
        0
    } else {
        count_prefix((n - 1) as nat, sides) + if sides[emit_order(n - 1)] {
            1nat
        } else {
            0nat
        }
    }
}

/// How many of the six faces are drawn.
pub open spec fn count_sides(sides: Seq<bool>) -> nat {
    count_prefix(6, sides)
}

/// The cross product of two integer vectors.
pub open spec fn cross(a: (int, int, int), b: (int, int, int)) -> (int, int, int) {
    (a.1 * b.2 - a.2 * b.1, a.2 * b.0 - a.0 * b.2, a.0 * b.1 - a.1 * b.0)
}

/// The difference of two integer vectors.
pub open spec fn minus(a: (int, int, int), b: (int, int, int)) -> (int, int, int) {
    (a.0 - b.0, a.1 - b.1, a.2 - b.2)
}

/// Both triangles of every face wind counter-clockwise as seen from outside
/// the cube: the cross product of their edges is the outward normal.
pub proof fn lemma_winding_is_outward(face: int)
    requires
        0 <= face < 6,
    ensures
        cross(
            minus(face_corner(face, 1), face_corner(face, 0)),
            minus(face_corner(face, 2), face_corner(face, 0)),
        ) == face_normal(face),
        cross(
            minus(face_corner(face, 3), face_corner(face, 2)),
            minus(face_corner(face, 0), face_corner(face, 2)),
        ) == face_normal(face),
{
    let a = minus(face_corner(face, 1), face_corner(face, 0));
    let b = minus(face_corner(face, 2), face_corner(face, 0));
    let c = minus(face_corner(face, 3), face_corner(face, 2));
    let d = minus(face_corner(face, 0), face_corner(face, 2));
    lemma_cross_of_unit_steps(a, b);
    lemma_cross_of_unit_steps(c, d);
}

/// The cross product of vectors whose components are -1, 0 or 1, with each
/// product of components evaluated.
proof fn lemma_cross_of_unit_steps(a: (int, int, int), b: (int, int, int))
    requires
        -1 <= a.0 <= 1 && -1 <= a.1 <= 1 && -1 <= a.2 <= 1,
        -1 <= b.0 <= 1 && -1 <= b.1 <= 1 && -1 <= b.2 <= 1,
    ensures
        cross(a, b) == (
            unit_product(a.1, b.2) - unit_product(a.2, b.1),
            unit_product(a.2, b.0) - unit_product(a.0, b.2),
            unit_product(a.0, b.1) - unit_product(a.1, b.0),
        ),
{
    assert(a.1 * b.2 == unit_product(a.1, b.2)) by (nonlinear_arith)
        requires
            -1 <= a.1 <= 1,
            -1 <= b.2 <= 1,
    ;
    assert(a.2 * b.1 == unit_product(a.2, b.1)) by (nonlinear_arith)
        requires
            -1 <= a.2 <= 1,
            -1 <= b.1 <= 1,
    ;
    assert(a.2 * b.0 == unit_product(a.2, b.0)) by (nonlinear_arith)
        requires
            -1 <= a.2 <= 1,
            -1 <= b.0 <= 1,
    ;
    assert(a.0 * b.2 == unit_product(a.0, b.2)) by (nonlinear_arith)
        requires
            -1 <= a.0 <= 1,
            -1 <= b.2 <= 1,
    ;
    assert(a.0 * b.1 == unit_product(a.0, b.1)) by (nonlinear_arith)
        requires
            -1 <= a.0 <= 1,
            -1 <= b.1 <= 1,
    ;
    assert(a.1 * b.0 == unit_product(a.1, b.0)) by (nonlinear_arith)
        requires
            -1 <= a.1 <= 1,
            -1 <= b.0 <= 1,
    ;
}

/// The product of two numbers that are each -1, 0 or 1.
spec fn unit_product(p: int, q: int) -> int {
    if p == 0 || q == 0 {
        0
    } else if p == q {
        1
    } else {
        -1
    }
}

/// Every corner of a face lies in the plane of that face: it is displaced
/// from the cube's origin along the face's axis by one block for a face that
/// looks in the positive direction, and not at all for one that looks in the
/// negative direction.
pub proof fn lemma_corners_on_face(face: int, k: int)
    requires
        0 <= face < 6,
        0 <= k < 4,
    ensures
        ({
            let n = face_normal(face);
            let p = face_corner(face, k);
            &&& n.0 == 1 ==> p.0 == 1
            &&& n.0 == -1 ==> p.0 == 0
            &&& n.1 == 1 ==> p.1 == 1
            &&& n.1 == -1 ==> p.1 == 0
            &&& n.2 == 1 ==> p.2 == 1
            &&& n.2 == -1 ==> p.2 == 0
        }),
{
}

/// The first `n` faces of a cube contribute six vertices for each of them
/// that is drawn.
pub proof fn lemma_cube_prefix_len(
    n: nat,
    x: int,
    y: int,
    z: int,
    uvs: Seq<UVCoords>,
    sides: Seq<bool>,
)
    ensures
        cube_prefix(n, x, y, z, uvs, sides).len() == 6 * count_prefix(n, sides),
    decreases n,
{
    if n > 0 {
        lemma_cube_prefix_len((n - 1) as nat, x, y, z, uvs, sides);
    }
}

/// A cube contributes six vertices for each drawn face.
pub proof fn lemma_cube_vertex_count(
    x: int,
    y: int,
    z: int,
    uvs: Seq<UVCoords>,
    sides: Seq<bool>,
)
    ensures
        cube_vertices(x, y, z, uvs, sides).len() == 6 * count_sides(sides),
        count_sides(sides) <= 6,
{
    lemma_cube_prefix_len(6, x, y, z, uvs, sides);
    reveal_with_fuel(count_prefix, 7);
}

/// A cube with no face drawn contributes no vertex.
pub proof fn lemma_hidden_cube_is_empty(
    x: int,
    y: int,
    z: int,
    uvs: Seq<UVCoords>,
    sides: Seq<bool>,
)
    requires
        forall|f: int| 0 <= f < 6 ==> !sides[f],
    ensures
        cube_vertices(x, y, z, uvs, sides) =~= Seq::<Vertex>::empty(),
        count_sides(sides) == 0,
{
    reveal_with_fuel(cube_prefix, 7);
    reveal_with_fuel(count_prefix, 7);
}

/// Appends the six vertices of face `face` of the cube at `(x, y, z)`.
fn push_face(out: &mut Vec<Vertex>, face: usize, x: u32, y: u32, z: u32, uv: UVCoords)
    requires
        face < 6,
        x < u32::MAX,
        y < u32::MAX,
        z < u32::MAX,
    ensures
        final(out)@ == old(out)@ + face_vertices(face as int, x as int, y as int, z as int, uv),
{
    let (x1, y1, z1): (u32, u32, u32) = (x + 1, y + 1, z + 1);
    let (bl, br, tr, tl): ((u32, u32, u32), (u32, u32, u32), (u32, u32, u32), (u32, u32, u32)) =
        if face == RIGHT {
        ((x1, y, z1), (x1, y, z), (x1, y1, z), (x1, y1, z1))
    } else if face == LEFT {
        ((x, y, z), (x, y, z1), (x, y1, z1), (x, y1, z))
    } else if face == TOP {
        ((x, y1, z1), (x1, y1, z1), (x1, y1, z), (x, y1, z))
    } else if face == BOTTOM {
        ((x, y, z), (x1, y, z), (x1, y, z1), (x, y, z1))
    } else if face == FRONT {
        ((x, y, z1), (x1, y, z1), (x1, y1, z1), (x, y1, z1))
    } else {
        ((x1, y, z), (x, y, z), (x, y1, z), (x1, y1, z))
    };
    out.push(Vertex { x: bl.0, y: bl.1, z: bl.2, u: uv.left, v: uv.bottom });
    out.push(Vertex { x: br.0, y: br.1, z: br.2, u: uv.right, v: uv.bottom });
    out.push(Vertex { x: tr.0, y: tr.1, z: tr.2, u: uv.right, v: uv.top });
    out.push(Vertex { x: tr.0, y: tr.1, z: tr.2, u: uv.right, v: uv.top });
    out.push(Vertex { x: tl.0, y: tl.1, z: tl.2, u: uv.left, v: uv.top });
    out.push(Vertex { x: bl.0, y: bl.1, z: bl.2, u: uv.left, v: uv.bottom });
    assert(out@ =~= old(out)@ + face_vertices(face as int, x as int, y as int, z as int, uv));
}

/// The face emitted in position `k`.
fn emitted_face(k: usize) -> (face: usize)
    requires
        k < 6,
    ensures
        face == emit_order(k as int),
        face < 6,
{
    if k == 0 {
        FRONT
    } else if k == 1 {
        BACK
    } else if k == 2 {
        LEFT
    } else if k == 3 {
        RIGHT
    } else if k == 4 {
        TOP
    } else {
        BOTTOM
    }
}

/// Appends to `out` the vertices of the cube at `(x, y, z)`, one quad of two
/// triangles for each drawn face, and returns how many vertices were added.
pub fn write_unit_cube(
    out: &mut Vec<Vertex>,
    x: u32,
    y: u32,
    z: u32,
    uvs: [UVCoords; 6],
    sides: Sides,
) -> (added: u32)
    requires
        x < u32::MAX,
        y < u32::MAX,
        z < u32::MAX,
    ensures
        final(out)@ == old(out)@ + cube_vertices(x as int, y as int, z as int, uvs@, sides@),
        added == 6 * count_sides(sides@),
        added <= 36,
{
    let ghost start = out@;
    let mut added: u32 = 0;
    let mut k: usize = 0;
    while k < 6
        invariant
            k <= 6,
            x < u32::MAX,
            y < u32::MAX,
            z < u32::MAX,
            out@ == start + cube_prefix(k as nat, x as int, y as int, z as int, uvs@, sides@),
            added == 6 * count_prefix(k as nat, sides@),
            added <= 6 * k,
        decreases 6 - k,
    {
        let face = emitted_face(k);
        if sides[face] {
            push_face(out, face, x, y, z, uvs[face]);
            added = added + 6;
        }
        k = k + 1;
        assert(out@ =~= start + cube_prefix(
            k as nat,
            x as int,
            y as int,
            z as int,
            uvs@,
            sides@,
        ));
    }
    added
}

/// The vertices of the unit cube at `(x, y, z)`: for each drawn face, in the
/// order front, back, left, right, top, bottom, two triangles that wind
/// counter-clockwise as seen from outside, textured with that face's
/// rectangle.
pub fn unit_cube_array(x: u32, y: u32, z: u32, uvs: [UVCoords; 6], sides: Sides) -> (array: Vec<
    Vertex,
>)
    requires
        x < u32::MAX,
        y < u32::MAX,
        z < u32::MAX,
    ensures
        array@ == cube_vertices(x as int, y as int, z as int, uvs@, sides@),
        array@.len() == 6 * count_sides(sides@),
{
    let mut array: Vec<Vertex> = Vec::new();
    let _ = write_unit_cube(&mut array, x, y, z, uvs, sides);
    proof {
        lemma_cube_vertex_count(x as int, y as int, z as int, uvs@, sides@);
    }
    array
}

} // verus!
