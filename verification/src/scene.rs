//! Spheres, and the scene that registers them with their materials.

use crate::fixed::WORLD_MAX;
use crate::hittable::Hittable;
use crate::material::Material;
use crate::vec3::Vec3;
use vstd::prelude::*;
use vstd::std_specs::convert::IntoSpec;

verus! {

/// The shapes and the materials of a picture. Both lists only grow, so the
/// place of an entry is its handle for good. A new scene holds the absorbing
/// material under the handle 0.
pub struct Scene {
    hittables: Vec<Hittable>,
    materials: Vec<Material>,
}

impl Default for Scene {
    /// The scene without shapes, with the absorbing material alone.
    fn default() -> (r: Scene)
        ensures
            r.hittables_view() == Seq::<Hittable>::empty(),
            r.materials_view() == seq![Material::Null],
            r.wf(),
    {
        let mut materials: Vec<Material> = Vec::new();
        materials.push(Material::Null);
        let r = Self { hittables: Vec::new(), materials };
        assert(r.materials_view() =~= seq![Material::Null]);
        r
    }
}

impl Scene {
    /// The shapes, in the order in which they were added.
    pub closed spec fn hittables_view(&self) -> Seq<Hittable> {
        self.hittables@
    }

    /// The materials, in the order in which they were added.
    pub closed spec fn materials_view(&self) -> Seq<Material> {
        self.materials@
    }

    /// Whether the scene can be rendered: every shape and every material is
    /// well-formed, and every shape's material handle names a material of the
    /// scene.
    pub open spec fn wf(&self) -> bool {
        &&& forall|i: int|
            0 <= i < self.hittables_view().len() ==> {
                &&& (#[trigger] self.hittables_view()[i]).wf()
                &&& self.hittables_view()[i].material_index_spec() < self.materials_view().len()
            }
        &&& forall|j: int|
            0 <= j < self.materials_view().len() ==> (#[trigger] self.materials_view()[j]).wf()
    }

    /// Tells whether the scene can be rendered.
    pub fn is_valid(&self) -> (r: bool)
        ensures
            r == self.wf(),
    {
        let mut i: usize = 0;
        while i < self.hittables.len()
            invariant
                i <= self.hittables_view().len(),
                self.hittables_view() == self.hittables@,
                self.materials_view() == self.materials@,
                forall|k: int|
                    0 <= k < i ==> {
                        &&& (#[trigger] self.hittables_view()[k]).wf()
                        &&& self.hittables_view()[k].material_index_spec()
                            < self.materials_view().len()
                    },
            decreases self.hittables.len() - i,
        {
            let index: usize = match &self.hittables[i] {
                Hittable::Sphere(sphere) => {
                    if !sphere.is_valid() {
                        return false;
                    }
                    sphere.material_index
                },
            };
            if index >= self.materials.len() {
                return false;
            }
            i += 1;
        }
        let mut j: usize = 0;
        while j < self.materials.len()
            invariant
                j <= self.materials_view().len(),
                self.materials_view() == self.materials@,
                forall|k: int| 0 <= k < j ==> (#[trigger] self.materials_view()[k]).wf(),
            decreases self.materials.len() - j,
        {
            if !self.materials[j].is_valid() {
                return false;
            }
            j += 1;
        }
        true
    }

    pub fn hittables(&self) -> (r: &[Hittable])
        ensures
            r@ == self.hittables_view(),
    {
        self.hittables.as_slice()
    }

    /// The shapes, for changing them in place.
    pub fn hittables_mut(&mut self) -> (r: &mut [Hittable])
        ensures
            r@ == old(self).hittables_view(),
            final(self).hittables_view() == final(r)@,
            final(self).materials_view() == old(self).materials_view(),
    {
        self.hittables.as_mut_slice()
    }

    pub fn hittable(&self, idx: usize) -> (r: &Hittable)
        requires
            idx < self.hittables_view().len(),
        ensures
            *r == self.hittables_view()[idx as int],
    {
        &self.hittables[idx]
    }

    /// Adds a shape and returns its handle: the number of shapes before.
    pub fn add_hittable<H: Into<Hittable>>(&mut self, hittable: H) -> (idx: usize)
        ensures
            idx == old(self).hittables_view().len(),
            final(self).hittables_view().len() == idx + 1,
            final(self).hittables_view().subrange(0, idx as int) == old(self).hittables_view(),
            call_ensures(
                <H as Into<Hittable>>::into,
                (hittable,),
                final(self).hittables_view()[idx as int],
            ),
            H::obeys_into_spec() ==> final(self).hittables_view() == old(
                self,
            ).hittables_view().push(hittable.into_spec()),
            final(self).materials_view() == old(self).materials_view(),
    {
        let shape: Hittable = hittable.into();
        self.hittables.push(shape);
        assert(self.hittables@.subrange(0, self.hittables@.len() - 1) =~= old(self).hittables@);
        self.hittables.len() - 1
    }

    pub fn materials(&self) -> (r: &[Material])
        ensures
            r@ == self.materials_view(),
    {
        self.materials.as_slice()
    }

    /// The materials, for changing them in place.
    pub fn materials_mut(&mut self) -> (r: &mut [Material])
        ensures
            r@ == old(self).materials_view(),
            final(self).materials_view() == final(r)@,
            final(self).hittables_view() == old(self).hittables_view(),
    {
        self.materials.as_mut_slice()
    }

    pub fn material(&self, idx: usize) -> (r: &Material)
        requires
            idx < self.materials_view().len(),
        ensures
            *r == self.materials_view()[idx as int],
    {
        &self.materials[idx]
    }

    /// Adds a material and returns its handle: the number of materials
    /// before.
    pub fn add_material(&mut self, material: Material) -> (idx: usize)
        ensures
            idx == old(self).materials_view().len(),
            final(self).materials_view() == old(self).materials_view().push(material),
            final(self).hittables_view() == old(self).hittables_view(),
    {
        self.materials.push(material);
        self.materials.len() - 1
    }
}

/// A sphere, with the handle of its material in the scene that holds it.
#[derive(Clone, Copy, Debug, PartialEq, Eq, Structural)]
pub struct Sphere {
    pub center: Vec3,
    pub radius: i64,
    pub material_index: usize,
}

impl Sphere {
    /// Whether the sphere lies inside the world and has a positive radius.
    pub open spec fn wf(self) -> bool {
        &&& self.center.within(WORLD_MAX as int)
        &&& 0 < self.radius <= WORLD_MAX
    }

    /// Tells whether the sphere is well-formed.
    pub fn is_valid(&self) -> (r: bool)
        ensures
            r == self.wf(),
    {
        self.center.is_within(WORLD_MAX) && 0 < self.radius && self.radius <= WORLD_MAX
    }
}

impl Default for Sphere {
    /// The unit sphere at the origin, with the absorbing material.
    fn default() -> (r: Sphere)
        ensures
            r == (Sphere { center: Vec3 { x: 0, y: 0, z: 0 }, radius: 65536, material_index: 0 }),
    {
        Sphere { center: Vec3::new(0, 0, 0), radius: 65536, material_index: 0 }
    }
}

} // verus!
