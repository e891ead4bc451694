use tri_bvh::primitives::scene::{SceneObject, SPHERE_OBJECT, TRIANGLE_OBJECT};
use tri_bvh::primitives::triangle::{Triangle, TriangleCPU};

fn triangles(n: u32) -> Vec<Triangle> {
    let cpu: Vec<TriangleCPU> =
        (0..n).map(|i| TriangleCPU::new(i, i, i, [0, 0, 0], [1, 0, 0], [0, 1, 0], 0)).collect();
    TriangleCPU::to_buffer_vec(&cpu)
}

#[test]
fn new_keeps_kind_and_index() {
    let o = SceneObject::new(9, 4);
    assert_eq!(o.object_type(), 9);
    assert_eq!(o.index(), 4);
}

#[test]
fn sphere_and_triangle_tags() {
    assert_eq!(SPHERE_OBJECT, 1);
    assert_eq!(TRIANGLE_OBJECT, 0);
    assert_eq!(SceneObject::from_sphere(3), SceneObject::new(1, 3));
    assert_eq!(SceneObject::from_triangle(3), SceneObject::new(0, 3));
}

#[test]
fn one_object_per_sphere() {
    let spheres = ["a", "b", "c"];
    let out = SceneObject::from_sphere_vec(&spheres);
    assert_eq!(
        out,
        vec![SceneObject::new(1, 0), SceneObject::new(1, 1), SceneObject::new(1, 2)]
    );
    let none: [u8; 0] = [];
    assert!(SceneObject::from_sphere_vec(&none).is_empty());
}

#[test]
fn add_appends_spheres_by_table_position() {
    let mut table = vec![SceneObject::new(7, 7), SceneObject::new(8, 8)];
    let spheres = [(), (), ()];
    SceneObject::add(&mut table, Some(&spheres[..]), None);
    assert_eq!(
        table,
        vec![
            SceneObject::new(7, 7),
            SceneObject::new(8, 8),
            SceneObject::new(1, 2),
            SceneObject::new(1, 3),
            SceneObject::new(1, 4),
        ]
    );
}

#[test]
fn add_with_both_appends_one_triangle_object() {
    let mut table = Vec::new();
    let spheres = [(), ()];
    let tris = triangles(5);
    SceneObject::add(&mut table, Some(&spheres[..]), Some(&tris[..]));
    assert_eq!(
        table,
        vec![SceneObject::new(1, 0), SceneObject::new(1, 1), SceneObject::new(0, 2)]
    );
}

#[test]
fn add_with_triangles_alone_appends_nothing() {
    let mut table = vec![SceneObject::new(1, 0)];
    let tris = triangles(5);
    SceneObject::add::<()>(&mut table, None, Some(&tris[..]));
    assert_eq!(table, vec![SceneObject::new(1, 0)]);
    SceneObject::add::<()>(&mut table, None, None);
    assert_eq!(table, vec![SceneObject::new(1, 0)]);
}
