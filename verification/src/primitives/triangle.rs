use vstd::prelude::*;
use crate::primitives::aabb::{AABB, lesser, greater, lemma_product_bound};

verus! {

/// The record of a triangle that the traversal side reads: its three vertex
/// indices and its material.
#[derive(Copy, Clone, Debug, PartialEq, Eq)]
pub struct Triangle {
    indices: [u32; 3],
    material: u32,
}

impl Triangle {
    /// The three vertex indices.
    pub closed spec fn spec_indices(self) -> [u32; 3] {
        self.indices
    }

    /// The material index.
    pub closed spec fn spec_material(self) -> u32 {
        self.material
    }

    /// The record with the given vertex indices and material.
    pub fn new(indices: [u32; 3], material: u32) -> (r: Self)
        ensures
            r.spec_indices() == indices,
            r.spec_material() == material,
    {
        Triangle { indices, material }
    }

    /// The three vertex indices.
    pub fn indices(&self) -> (r: [u32; 3])
        ensures
            r == self.spec_indices(),
    {
        self.indices
    }

    /// The material index.
    pub fn material(&self) -> (r: u32)
        ensures
            r == self.spec_material(),
    {
        self.material
    }
}

/// What a primitive holds: its vertex indices and positions, its material,
/// and the summaries that are computed once when the primitive is made.
pub struct TriangleView {
    pub a_index: u32,
    pub b_index: u32,
    pub c_index: u32,
    pub a: [i32; 4],
    pub b: [i32; 4],
    pub c: [i32; 4],
    pub material: u32,
    /// Three times the centroid: the sum of the three vertices.
    pub centroid_sum: [i64; 3],
    pub bbox: AABB,
    pub bbox_surface_area: int,
    /// Twice the area as a vector: the cross product of two edges.
    pub area_vector: [i128; 3],
}

impl TriangleView {
    /// Whether the summaries are those of the three vertices: the padding of
    /// the vertices is zero, the centroid sum is their sum, the box is the
    /// box around them, the box area is the area of that box, and the area
    /// vector is the cross product of the edges from the first vertex.
    pub open spec fn is_consistent(self) -> bool {
        let a = [self.a[0], self.a[1], self.a[2]];
        let b = [self.b[0], self.b[1], self.b[2]];
        let c = [self.c[0], self.c[1], self.c[2]];
        &&& self.a[3] == 0 && self.b[3] == 0 && self.c[3] == 0
        &&& self.centroid_sum[0] == vertex_sum(a, b, c, 0)
        &&& self.centroid_sum[1] == vertex_sum(a, b, c, 1)
        &&& self.centroid_sum[2] == vertex_sum(a, b, c, 2)
        &&& self.bbox == triangle_bounds(a, b, c)
        &&& self.bbox_surface_area == self.bbox.area()
        &&& self.area_vector[0] == edge_cross(a, b, c, 0)
        &&& self.area_vector[1] == edge_cross(a, b, c, 1)
        &&& self.area_vector[2] == edge_cross(a, b, c, 2)
    }

    /// The square of twice the triangle's area: the squared length of the
    /// area vector.
    pub open spec fn doubled_area_squared(self) -> int {
        self.area_vector[0] * self.area_vector[0] + self.area_vector[1] * self.area_vector[1]
            + self.area_vector[2] * self.area_vector[2]
    }
}

/// A triangle on the integer grid together with the geometric summaries
/// that the tree builder reads again and again.
///
/// The centroid of a grid triangle lies on thirds of grid steps and its area
/// on halves, so both are held in a form that is exact: the centroid as its
/// whole part and its thirds, handed out as the sum of the three vertices,
/// and the area as the cross product of two edges, whose length is twice
/// the area.
#[derive(Copy, Clone, Debug)]
pub struct TriangleCPU {
    a_index: u32,
    b_index: u32,
    c_index: u32,
    a: [i32; 4],
    b: [i32; 4],
    c: [i32; 4],
    material: u32,
    centroid: [i32; 3],
    centroid_thirds: [u8; 3],
    bbox: AABB,
    bbox_surface_area: i128,
    surface_area: [i128; 3],
}

impl View for TriangleCPU {
    type V = TriangleView;

    /// The primitive's fields, with the centroid as the sum of the vertices
    /// and the box area as an integer without bound.
    closed spec fn view(&self) -> TriangleView {
        TriangleView {
            a_index: self.a_index,
            b_index: self.b_index,
            c_index: self.c_index,
            a: self.a,
            b: self.b,
            c: self.c,
            material: self.material,
            centroid_sum: [
                (3 * self.centroid[0] + self.centroid_thirds[0]) as i64,
                (3 * self.centroid[1] + self.centroid_thirds[1]) as i64,
                (3 * self.centroid[2] + self.centroid_thirds[2]) as i64,
            ],
            bbox: self.bbox,
            bbox_surface_area: self.bbox_surface_area as int,
            area_vector: self.surface_area,
        }
    }
}

/// The sum of the three vertices along `axis`: three times the centroid.
pub open spec fn vertex_sum(a: [i32; 3], b: [i32; 3], c: [i32; 3], axis: int) -> int {
    a[axis] + b[axis] + c[axis]
}

/// The box around three points; its padding is zero.
pub open spec fn triangle_bounds(a: [i32; 3], b: [i32; 3], c: [i32; 3]) -> AABB {
    AABB {
        min: [
            lesser(lesser(a[0], b[0]), c[0]),
            lesser(lesser(a[1], b[1]), c[1]),
            lesser(lesser(a[2], b[2]), c[2]),
            0i32,
        ],
        max: [
            greater(greater(a[0], b[0]), c[0]),
            greater(greater(a[1], b[1]), c[1]),
            greater(greater(a[2], b[2]), c[2]),
            0i32,
        ],
    }
}

/// Component `axis` of the cross product of the edges `b - a` and `c - a`.
/// The length of that vector is twice the area of the triangle.
pub open spec fn edge_cross(a: [i32; 3], b: [i32; 3], c: [i32; 3], axis: int) -> int {
    let j = (axis + 1) % 3;
    let k = (axis + 2) % 3;
    (b[j] - a[j]) * (c[k] - a[k]) - (b[k] - a[k]) * (c[j] - a[j])
}

/// The sum of the vertices of any primitive lies within 33 bits.
pub proof fn lemma_centroid_sum_bound(p: TriangleCPU, axis: int)
    requires
        0 <= axis < 3,
    ensures
        -0x2_0000_0000 < p@.centroid_sum[axis] < 0x2_0000_0000,
{
}

/// The smaller of two coordinates.
fn min_of(a: i32, b: i32) -> (r: i32)
    ensures
        r == lesser(a, b),
{
    if a <= b { a } else { b }
}

/// The larger of two coordinates.
fn max_of(a: i32, b: i32) -> (r: i32)
    ensures
        r == greater(a, b),
{
    if a >= b { a } else { b }
}

/// The sum of three coordinates as a whole number of threes and a rest.
fn thirds_of(a: i32, b: i32, c: i32) -> (r: (i32, u8))
    ensures
        3 * r.0 + r.1 == a + b + c,
        r.1 < 3,
{
    let shifted: i64 = a as i64 + b as i64 + c as i64 + 3 * 0x8000_0000i64;
    let q: i64 = shifted / 3;
    let rest: i64 = shifted % 3;
    ((q - 0x8000_0000i64) as i32, rest as u8)
}

/// One component of the cross product of the edges `u` and `v`.
fn cross_of(uj: i32, uk: i32, vj: i32, vk: i32, aj: i32, ak: i32) -> (r: i128)
    ensures
        r == (uj - aj) * (vk - ak) - (uk - ak) * (vj - aj),
{
    let p: i128 = uj as i128 - aj as i128;
    let q: i128 = vk as i128 - ak as i128;
    let s: i128 = uk as i128 - ak as i128;
    let t: i128 = vj as i128 - aj as i128;
    proof {
        lemma_product_bound(p as int, q as int);
        lemma_product_bound(s as int, t as int);
    }
    p * q - s * t
}

impl TriangleCPU {
    /// Every primitive that exists has the summaries of its vertices.
    #[verifier::type_invariant]
    spec fn well_formed(&self) -> bool {
        &&& self@.is_consistent()
        &&& self.centroid_thirds[0] < 3 && self.centroid_thirds[1] < 3 && self.centroid_thirds[2] < 3
    }

    /// The primitive with vertices `a`, `b` and `c`. Its summaries are
    /// computed here, once: the sum of the three vertices, which is three
    /// times the centroid; the box around the three vertices; the surface
    /// area of that box; and the cross product of the edges `b - a` and
    /// `c - a`, whose length is twice the area of the triangle.
    pub fn new(
        a_index: u32,
        b_index: u32,
        c_index: u32,
        a: [i32; 3],
        b: [i32; 3],
        c: [i32; 3],
        material: u32,
    ) -> (r: Self)
        ensures
            r@.is_consistent(),
            r@.a_index == a_index,
            r@.b_index == b_index,
            r@.c_index == c_index,
            r@.a == [a[0], a[1], a[2], 0i32],
            r@.b == [b[0], b[1], b[2], 0i32],
            r@.c == [c[0], c[1], c[2], 0i32],
            r@.material == material,
            r@.centroid_sum[0] == a[0] + b[0] + c[0],
            r@.centroid_sum[1] == a[1] + b[1] + c[1],
            r@.centroid_sum[2] == a[2] + b[2] + c[2],
            r@.bbox == triangle_bounds(a, b, c),
            r@.bbox.is_proper() && r@.bbox.is_padded(),
            r@.bbox_surface_area == triangle_bounds(a, b, c).area(),
            r@.area_vector[0] == edge_cross(a, b, c, 0),
            r@.area_vector[1] == edge_cross(a, b, c, 1),
            r@.area_vector[2] == edge_cross(a, b, c, 2),
    {
        let (x, xt) = thirds_of(a[0], b[0], c[0]);
        let (y, yt) = thirds_of(a[1], b[1], c[1]);
        let (z, zt) = thirds_of(a[2], b[2], c[2]);
        let surface_area = [
            cross_of(b[1], b[2], c[1], c[2], a[1], a[2]),
            cross_of(b[2], b[0], c[2], c[0], a[2], a[0]),
            cross_of(b[0], b[1], c[0], c[1], a[0], a[1]),
        ];
        let bbox = AABB::new(
            [
                min_of(min_of(a[0], b[0]), c[0]),
                min_of(min_of(a[1], b[1]), c[1]),
                min_of(min_of(a[2], b[2]), c[2]),
                0,
            ],
            [
                max_of(max_of(a[0], b[0]), c[0]),
                max_of(max_of(a[1], b[1]), c[1]),
                max_of(max_of(a[2], b[2]), c[2]),
                0,
            ],
        );
        let bbox_surface_area = bbox.surface_area();
        proof {
            let a4 = [a[0], a[1], a[2], 0i32];
            let b4 = [b[0], b[1], b[2], 0i32];
            let c4 = [c[0], c[1], c[2], 0i32];
            assert([a4[0], a4[1], a4[2]] =~= a);
            assert([b4[0], b4[1], b4[2]] =~= b);
            assert([c4[0], c4[1], c4[2]] =~= c);
            assert(bbox.min =~= triangle_bounds(a, b, c).min);
            assert(bbox.max =~= triangle_bounds(a, b, c).max);
        }
        Self {
            a_index,
            b_index,
            c_index,
            a: [a[0], a[1], a[2], 0],
            b: [b[0], b[1], b[2], 0],
            c: [c[0], c[1], c[2], 0],
            material,
            centroid: [x, y, z],
            centroid_thirds: [xt, yt, zt],
            bbox,
            bbox_surface_area,
            surface_area,
        }
    }

    /// The box around the triangle: it does not end before it starts, and
    /// its padding is zero.
    pub fn bounding_box(&self) -> (r: AABB)
        ensures
            r == self@.bbox,
            self@.is_consistent(),
            r.is_proper() && r.is_padded(),
    {
        proof {
            use_type_invariant(self);
        }
        self.bbox
    }

    /// Three times the centroid of the triangle: the sum of its three
    /// vertices. The centroid itself lies on thirds of grid steps.
    pub fn centroid(&self) -> (r: [i64; 3])
        ensures
            r == self@.centroid_sum,
            self@.is_consistent(),
    {
        proof {
            use_type_invariant(self);
        }
        let r = [
            3 * (self.centroid[0] as i64) + self.centroid_thirds[0] as i64,
            3 * (self.centroid[1] as i64) + self.centroid_thirds[1] as i64,
            3 * (self.centroid[2] as i64) + self.centroid_thirds[2] as i64,
        ];
        assert(r =~= self@.centroid_sum);
        r
    }

    /// Twice the area of the triangle as a vector: the cross product of the
    /// edges from the first vertex to the second and to the third. The area
    /// of the triangle is half the length of this vector.
    pub fn surface_area(&self) -> (r: [i128; 3])
        ensures
            r == self@.area_vector,
            self@.is_consistent(),
    {
        proof {
            use_type_invariant(self);
        }
        self.surface_area
    }

    /// The surface area of the box around the triangle.
    pub fn bbox_surface_area(&self) -> (r: i128)
        ensures
            r == self@.bbox_surface_area,
            r == self@.bbox.area(),
            self@.is_consistent(),
    {
        proof {
            use_type_invariant(self);
        }
        self.bbox_surface_area
    }

    /// The records that the traversal side reads, one per primitive and in
    /// the same order.
    pub fn to_buffer_vec(triangles: &Vec<TriangleCPU>) -> (r: Vec<Triangle>)
        ensures
            r@.len() == triangles@.len(),
            forall|i: int|
                0 <= i < r@.len() ==> {
                    &&& (#[trigger] r@[i]).spec_indices() == [
                        triangles@[i]@.a_index,
                        triangles@[i]@.b_index,
                        triangles@[i]@.c_index,
                    ]
                    &&& r@[i].spec_material() == triangles@[i]@.material
                },
    {
        let mut buffer_vec: Vec<Triangle> = Vec::with_capacity(triangles.len());
        let mut i: usize = 0;
        while i < triangles.len()
            invariant
                i <= triangles.len(),
                buffer_vec@.len() == i,
                forall|k: int|
                    0 <= k < i ==> {
                        &&& (#[trigger] buffer_vec@[k]).spec_indices() == [
                            triangles@[k]@.a_index,
                            triangles@[k]@.b_index,
                            triangles@[k]@.c_index,
                        ]
                        &&& buffer_vec@[k].spec_material() == triangles@[k]@.material
                    },
            decreases triangles.len() - i,
        {
            let triangle = &triangles[i];
            buffer_vec.push(
                Triangle {
                    indices: [triangle.a_index, triangle.b_index, triangle.c_index],
                    material: triangle.material,
                },
            );
            i += 1;
        }
        buffer_vec
    }
}

} // verus!
