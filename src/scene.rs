//! Scene descriptions: the host's lists of placed primitives and lights, and
//! their lifting into one working dimension for a render.
use vstd::prelude::*;

use crate::ndvec::{padded, NdVec};

verus! {

/// A scene as the host describes it: spheres, cubes and point lights, each
/// placed at a position given by as many coordinates as the host chose.
///
/// `T` is the coordinate type; `S`, `C` and `Li` are what a sphere, a cube and
/// a light carry (sizes and materials). Entries are only ever appended.
pub struct World<T, S, C, Li> {
    pub spheres: Vec<(Vec<T>, S)>,
    pub cubes: Vec<(Vec<T>, C)>,
    pub lights: Vec<(Vec<T>, Li)>,
}

impl<T, S, C, Li> World<T, S, C, Li> {
    /// The empty scene.
    pub fn new() -> (r: Self)
        ensures
            r.spheres@.len() == 0,
            r.cubes@.len() == 0,
            r.lights@.len() == 0,
    {
        World { spheres: Vec::new(), cubes: Vec::new(), lights: Vec::new() }
    }

    /// Appends a sphere placed at `pos`.
    pub fn add_sphere(&mut self, pos: Vec<T>, sphere: S)
        ensures
            final(self).spheres@ == old(self).spheres@.push((pos, sphere)),
            final(self).cubes@ == old(self).cubes@,
            final(self).lights@ == old(self).lights@,
    {
        self.spheres.push((pos, sphere));
    }

    /// Appends a cube placed at `pos`.
    pub fn add_cube(&mut self, pos: Vec<T>, cube: C)
        ensures
            final(self).cubes@ == old(self).cubes@.push((pos, cube)),
            final(self).spheres@ == old(self).spheres@,
            final(self).lights@ == old(self).lights@,
    {
        self.cubes.push((pos, cube));
    }

    /// Appends a point light placed at `pos`.
    pub fn add_light(&mut self, pos: Vec<T>, light: Li)
        ensures
            final(self).lights@ == old(self).lights@.push((pos, light)),
            final(self).spheres@ == old(self).spheres@,
            final(self).cubes@ == old(self).cubes@,
    {
        self.lights.push((pos, light));
    }
}

/// `placed` holds the entries of `source` in the same order, each position
/// padded with `zero` into `N` dimensions and each payload unchanged.
pub open spec fn lifted<T, P, const N: usize>(
    placed: Seq<(NdVec<T, N>, P)>,
    source: Seq<(Vec<T>, P)>,
    zero: T,
) -> bool {
    &&& placed.len() == source.len()
    &&& forall|i: int|
        0 <= i < source.len() ==> (#[trigger] placed[i]).0@ == padded(source[i].0@, zero, N as nat)
            && placed[i].1 == source[i].1
}

/// A scene specialised to `N` dimensions for one render: every position is a
/// vector of `NdVec<T, N>`, together with the scene's centre and the camera.
pub struct DimensionalWorld<T, S, C, Li, const N: usize> {
    pub center: NdVec<T, N>,
    pub cam_pos: NdVec<T, N>,
    pub lights: Vec<(NdVec<T, N>, Li)>,
    pub spheres: Vec<(NdVec<T, N>, S)>,
    pub cubes: Vec<(NdVec<T, N>, C)>,
}

/// Pads the position of every entry of `items` into `N` dimensions with `zero`.
fn lift_all<T: Copy, P: Copy, const N: usize>(items: &Vec<(Vec<T>, P)>, zero: T) -> (r: Vec<(NdVec<T, N>, P)>)
    ensures
        lifted(r@, items@, zero),
{
    let mut r: Vec<(NdVec<T, N>, P)> = Vec::new();
    let mut i: usize = 0;
    while i < items.len()
        invariant
            i <= items@.len(),
            lifted(r@, items@.take(i as int), zero),
        decreases items@.len() - i,
    {
        let position = NdVec::pad(items[i].0.as_slice(), zero);
        r.push((position, items[i].1));
        i = i + 1;
    }
    assert(items@.take(items@.len() as int) =~= items@);
    r
}

impl<T: Copy, S: Copy, C: Copy, Li: Copy, const N: usize> DimensionalWorld<T, S, C, Li, N> {
    /// Lifts `world` into `N` dimensions: each position is padded with `zero`,
    /// the entries keep their order and payloads, the centre is the origin and
    /// the camera stands at `cam_pos` as given.
    pub fn from_world(world: &World<T, S, C, Li>, cam_pos: NdVec<T, N>, zero: T) -> (r: Self)
        ensures
            r.center@ == Seq::new(N as nat, |i: int| zero),
            r.cam_pos == cam_pos,
            lifted(r.lights@, world.lights@, zero),
            lifted(r.spheres@, world.spheres@, zero),
            lifted(r.cubes@, world.cubes@, zero),
    {
        DimensionalWorld {
            center: NdVec::new(zero),
            cam_pos,
            lights: lift_all(&world.lights, zero),
            spheres: lift_all(&world.spheres, zero),
            cubes: lift_all(&world.cubes, zero),
        }
    }
}

} // verus!
