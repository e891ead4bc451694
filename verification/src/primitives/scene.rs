use vstd::prelude::*;
use crate::primitives::triangle::Triangle;

verus! {

/// The kind tag of a triangle object.
pub const TRIANGLE_OBJECT: u32 = 0;

/// The kind tag of a sphere object.
pub const SPHERE_OBJECT: u32 = 1;

/// One entry of the scene's object table: what kind of object it is, and
/// its index.
#[derive(Copy, Clone, Debug, PartialEq, Eq)]
pub struct SceneObject {
    object_type: u32,
    index: u32,
}

impl SceneObject {
    /// The kind tag.
    pub closed spec fn spec_object_type(self) -> u32 {
        self.object_type
    }

    /// The index of the object.
    pub closed spec fn spec_index(self) -> u32 {
        self.index
    }

    /// The entry with the given kind tag and index.
    pub fn new(object_type: u32, index: u32) -> (r: Self)
        ensures
            r.spec_object_type() == object_type,
            r.spec_index() == index,
    {
        Self { object_type, index }
    }

    /// The entry for the sphere with the given index.
    pub fn from_sphere(index: u32) -> (r: Self)
        ensures
            r.spec_object_type() == SPHERE_OBJECT,
            r.spec_index() == index,
    {
        Self::new(SPHERE_OBJECT, index)
    }

    /// The entry for the triangle with the given index.
    pub fn from_triangle(index: u32) -> (r: Self)
        ensures
            r.spec_object_type() == TRIANGLE_OBJECT,
            r.spec_index() == index,
    {
        Self::new(TRIANGLE_OBJECT, index)
    }

    /// The kind tag.
    pub fn object_type(&self) -> (r: u32)
        ensures
            r == self.spec_object_type(),
    {
        self.object_type
    }

    /// The index of the object.
    pub fn index(&self) -> (r: u32)
        ensures
            r == self.spec_index(),
    {
        self.index
    }

    /// One sphere object per sphere, each with its position in the slice as
    /// its index (the low 32 bits of it).
    pub fn from_sphere_vec<S>(spheres: &[S]) -> (r: Vec<Self>)
        ensures
            r@.len() == spheres@.len(),
            forall|i: int|
                0 <= i < r@.len() ==> (#[trigger] r@[i]).spec_object_type() == SPHERE_OBJECT && r@[i].spec_index()
                    == i as u32,
    {
        let mut out: Vec<Self> = Vec::new();
        let mut i: usize = 0;
        while i < spheres.len()
            invariant
                i <= spheres@.len(),
                out@.len() == i,
                forall|k: int|
                    0 <= k < i ==> (#[trigger] out@[k]).spec_object_type() == SPHERE_OBJECT && out@[k].spec_index()
                        == k as u32,
            decreases spheres@.len() - i,
        {
            out.push(Self::new(SPHERE_OBJECT, #[verifier::truncate] (i as u32)));
            i += 1;
        }
        out
    }

    /// What `add` appends to a table of `len` objects: one sphere object per
    /// sphere, indexed by its position in the table; then, where both
    /// `spheres` and `tris` are given, one triangle object, indexed by its
    /// position in the table too.
    pub open spec fn added(len: int, spheres: Option<int>, tris: bool) -> Seq<(u32, u32)> {
        let sphere_count = match spheres {
            Some(n) => n,
            None => 0,
        };
        let sphere_part = Seq::new(sphere_count as nat, |i: int| (SPHERE_OBJECT, (len + i) as u32));
        if tris && spheres.is_some() {
            sphere_part.push((TRIANGLE_OBJECT, (len + sphere_count) as u32))
        } else {
            sphere_part
        }
    }

    /// Appends the objects of `added` to `scene_objects`.
    pub fn add<S>(
        scene_objects: &mut Vec<SceneObject>,
        spheres: Option<&[S]>,
        tris: Option<&[Triangle]>,
    )
        ensures
            ({
                let count = match spheres {
                    Some(s) => Some(s@.len() as int),
                    None => None,
                };
                let extra = Self::added(old(scene_objects)@.len() as int, count, tris.is_some());
                &&& final(scene_objects)@.len() == old(scene_objects)@.len() + extra.len()
                &&& final(scene_objects)@.subrange(0, old(scene_objects)@.len() as int) == old(
                    scene_objects,
                )@
                &&& forall|i: int|
                    0 <= i < extra.len() ==> {
                        let object = #[trigger] final(scene_objects)@[old(scene_objects)@.len() + i];
                        object.spec_object_type() == extra[i].0 && object.spec_index() == extra[i].1
                    }
            }),
    {
        let ghost before = scene_objects@;
        if let Some(spheres) = spheres {
            let first = scene_objects.len();
            let mut k: usize = 0;
            while k < spheres.len()
                invariant
                    k <= spheres@.len(),
                    first == before.len(),
                    scene_objects@.len() == first + k,
                    scene_objects@.subrange(0, first as int) == before,
                    forall|i: int|
                        0 <= i < k ==> {
                            let object = #[trigger] scene_objects@[first + i];
                            object.spec_object_type() == SPHERE_OBJECT && object.spec_index() == (
                            first + i) as u32
                        },
                decreases spheres@.len() - k,
            {
                let ghost so_far = scene_objects@;
                let i = scene_objects.len();
                scene_objects.push(SceneObject::from_sphere(#[verifier::truncate] (i as u32)));
                proof {
                    assert(scene_objects@.subrange(0, first as int) =~= so_far.subrange(
                        0,
                        first as int,
                    ));
                }
                k += 1;
            }
        }
        if tris.is_some() && spheres.is_some() {
            let ghost so_far = scene_objects@;
            let i = scene_objects.len();
            scene_objects.push(SceneObject::from_triangle(#[verifier::truncate] (i as u32)));
            proof {
                assert(scene_objects@.subrange(0, before.len() as int) =~= so_far.subrange(
                    0,
                    before.len() as int,
                ));
            }
        }
    }
}

} // verus!
