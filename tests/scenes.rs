use ndrt::{DimensionalWorld, NdVec, World};

#[test]
fn new_world_is_empty() {
    let w: World<f32, u8, u16, u32> = World::new();
    assert!(w.spheres.is_empty());
    assert!(w.cubes.is_empty());
    assert!(w.lights.is_empty());
}

#[test]
fn builders_append_in_order() {
    let mut w: World<f32, u8, u16, u32> = World::new();
    w.add_sphere(vec![1.0], 1);
    w.add_sphere(vec![2.0, 3.0], 2);
    w.add_cube(vec![], 7);
    w.add_light(vec![0.0, 0.0, 5.0], 9);
    assert_eq!(w.spheres, vec![(vec![1.0], 1), (vec![2.0, 3.0], 2)]);
    assert_eq!(w.cubes, vec![(vec![], 7)]);
    assert_eq!(w.lights, vec![(vec![0.0, 0.0, 5.0], 9)]);
}

#[test]
fn from_world_pads_every_position() {
    let mut w: World<f32, char, bool, u8> = World::new();
    w.add_sphere(vec![1.0, 2.0], 'a');
    w.add_sphere(vec![1.0, 2.0, 3.0, 4.0, 5.0], 'b');
    w.add_cube(vec![-1.0], true);
    w.add_light(vec![], 3);
    let cam: NdVec<f32, 3> = NdVec::pad(&[0.0, 0.5], -8.0);
    let d: DimensionalWorld<f32, char, bool, u8, 3> = DimensionalWorld::from_world(&w, cam, 0.0);
    assert_eq!(d.center.components(), &[0.0, 0.0, 0.0]);
    assert_eq!(d.cam_pos.components(), &[0.0, 0.5, -8.0]);
    assert_eq!(d.spheres.len(), 2);
    assert_eq!(d.spheres[0].0.components(), &[1.0, 2.0, 0.0]);
    assert_eq!(d.spheres[0].1, 'a');
    assert_eq!(d.spheres[1].0.components(), &[1.0, 2.0, 3.0]);
    assert_eq!(d.spheres[1].1, 'b');
    assert_eq!(d.cubes.len(), 1);
    assert_eq!(d.cubes[0].0.components(), &[-1.0, 0.0, 0.0]);
    assert!(d.cubes[0].1);
    assert_eq!(d.lights.len(), 1);
    assert_eq!(d.lights[0].0.components(), &[0.0, 0.0, 0.0]);
    assert_eq!(d.lights[0].1, 3);
}
