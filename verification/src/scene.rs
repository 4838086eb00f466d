//! Meshes, materials and the scene they make up.

use crate::geometry::{Geometry, Point, Vector};
use crate::nearest::{
    comparable, is_nearest, least_distance, lemma_comparable_has_a_nearest,
    lemma_nearest_is_unique, lemma_nearest_of_concatenation, nearest_position,
};
use crate::scalar::Scalar;
use vstd::prelude::*;

verus! {

/// Linear red, green and blue, in `x`, `y` and `z`.
pub type Color = Vector;

/// How a surface answers light, or that it is a light itself.
#[derive(Clone, Copy, PartialEq, Eq, Structural, Debug)]
pub struct Material {
    pub base_color: Color,
    pub diffuse: Scalar,
    pub specular: Scalar,
    pub shininess: Scalar,
    /// An emissive material: its mesh is a point light at the centre of its
    /// sphere, and is drawn in `base_color` as it is.
    pub is_light: bool,
}

/// A geometry and the material of its surface.
#[derive(Debug)]
pub struct Mesh {
    pub geometry: Geometry,
    pub material: Material,
}

/// The meshes to render, in the order in which they are asked for their
/// distance.
#[derive(Debug)]
pub struct Scene {
    pub meshes: Vec<Mesh>,
}

/// A point light: where it is and what colour it sheds.
#[derive(Clone, Copy, PartialEq, Eq, Structural, Debug)]
pub struct Light {
    pub position: Point,
    pub color: Color,
}

/// The surface nearest to a query point, as [`Scene::nearest`] finds it.
#[derive(Clone, Copy, Debug)]
pub struct Contact<'a> {
    /// The position of the mesh in the scene.
    pub mesh: usize,
    /// The position of the leaf among the leaves of that mesh's geometry.
    pub leaf: usize,
    /// The leaf itself: a sphere or a triangle.
    pub geometry: &'a Geometry,
    /// The material of the mesh.
    pub material: Material,
    /// The sampled distance of the leaf.
    pub distance: Scalar,
}

/// The lights among the first `n` of `meshes`, in their order: for each
/// emissive mesh the centre of its sphere and its base colour.
pub open spec fn lights_of(meshes: Seq<Mesh>, n: nat) -> Seq<Light>
    decreases n,
{
    if n == 0 || n > meshes.len() {
        Seq::empty()
    } else {
        let mesh = meshes[n - 1];
        let before = lights_of(meshes, (n - 1) as nat);
        if mesh.material.is_light {
            before.push(Light { position: mesh.geometry->center, color: mesh.material.base_color })
        } else {
            before
        }
    }
}

/// A scene without an emissive mesh has no lights, so that nothing is shed
/// on its surfaces.
pub proof fn lemma_no_lights_without_emissive_meshes(meshes: Seq<Mesh>, n: nat)
    requires
        forall|i: int| 0 <= i < meshes.len() ==> !(#[trigger] meshes[i]).material.is_light,
    ensures
        lights_of(meshes, n).len() == 0,
    decreases n,
{
    if n > 0 {
        lemma_no_lights_without_emissive_meshes(meshes, (n - 1) as nat);
    }
}

impl Scene {
    /// Every emissive mesh is a sphere, as a light has to be.
    pub open spec fn lights_are_spheres(&self) -> bool {
        forall|i: int|
            0 <= i < self.meshes@.len() && (#[trigger] self.meshes@[i]).material.is_light
                ==> self.meshes@[i].geometry is Sphere
    }

    /// Whether every emissive mesh is a sphere.
    pub fn has_sphere_lights(&self) -> (r: bool)
        ensures
            r == self.lights_are_spheres(),
    {
        let mut i: usize = 0;
        while i < self.meshes.len()
            invariant
                i <= self.meshes@.len(),
                forall|k: int|
                    0 <= k < i && (#[trigger] self.meshes@[k]).material.is_light
                        ==> self.meshes@[k].geometry is Sphere,
            decreases self.meshes@.len() - i,
        {
            let mesh = &self.meshes[i];
            if mesh.material.is_light {
                match &mesh.geometry {
                    Geometry::Sphere { .. } => {},
                    _ => {
                        return false;
                    },
                }
            }
            i = i + 1;
        }
        true
    }

    /// The point lights of the scene, in the order of their meshes.
    pub fn lights(&self) -> (r: Vec<Light>)
        requires
            self.lights_are_spheres(),
        ensures
            r@ == lights_of(self.meshes@, self.meshes@.len()),
    {
        let mut out: Vec<Light> = Vec::new();
        let mut i: usize = 0;
        while i < self.meshes.len()
            invariant
                i <= self.meshes@.len(),
                self.lights_are_spheres(),
                out@ == lights_of(self.meshes@, i as nat),
            decreases self.meshes@.len() - i,
        {
            let mesh = &self.meshes[i];
            if mesh.material.is_light {
                match &mesh.geometry {
                    Geometry::Sphere { center, .. } => {
                        out.push(Light { position: *center, color: mesh.material.base_color });
                    },
                    _ => {},
                }
            }
            i = i + 1;
        }
        out
    }

    /// The samples of mesh `i` allow its geometry a distance (see
    /// [`Geometry::distance`]).
    pub open spec fn mesh_samplable(&self, samples: Seq<Vec<Scalar>>, i: int) -> bool {
        &&& self.meshes@[i].geometry.solid()
        &&& samples[i]@.len() == self.meshes@[i].geometry.leaf_seq().len()
        &&& comparable(samples[i]@)
    }

    /// The distance of each of the first `n` meshes: the least of its samples.
    pub open spec fn mesh_distances(samples: Seq<Vec<Scalar>>, n: nat) -> Seq<Scalar> {
        Seq::new(n, |i: int| least_distance(samples[i]@))
    }

    /// The samples allow the scene a nearest surface: there is one table of
    /// samples for each mesh, each mesh has a distance by its table, and the
    /// distances of the meshes can be compared.
    pub open spec fn samplable(&self, samples: Seq<Vec<Scalar>>) -> bool {
        &&& samples.len() == self.meshes@.len()
        &&& forall|i: int| 0 <= i < self.meshes@.len() ==> self.mesh_samplable(samples, i)
        &&& comparable(Self::mesh_distances(samples, samples.len()))
    }

    /// The nearest surface of a scene with these samples: on the first mesh
    /// whose distance is least, the first leaf whose sample is least.
    pub open spec fn contact<'a>(&'a self, samples: Seq<Vec<Scalar>>) -> Contact<'a> {
        let mesh = nearest_position(Self::mesh_distances(samples, samples.len()));
        let leaf = nearest_position(samples[mesh]@);
        Contact {
            mesh: mesh as usize,
            leaf: leaf as usize,
            geometry: &self.meshes@[mesh].geometry.leaf_seq()[leaf],
            material: self.meshes@[mesh].material,
            distance: samples[mesh]@[leaf],
        }
    }

    /// The nearest surface of a scene that has one lies on a mesh of the
    /// scene and on a leaf of that mesh, and has the sample of that leaf for
    /// its distance.
    pub proof fn lemma_contact_is_a_sample(&self, samples: Seq<Vec<Scalar>>)
        requires
            self.samplable(samples),
        ensures
            ({
                let contact = self.contact(samples);
                &&& contact.mesh < samples.len()
                &&& contact.leaf < samples[contact.mesh as int]@.len()
                &&& is_nearest(Self::mesh_distances(samples, samples.len()), contact.mesh as int)
                &&& is_nearest(samples[contact.mesh as int]@, contact.leaf as int)
                &&& contact.distance == samples[contact.mesh as int]@[contact.leaf as int]
                &&& !(contact.geometry is Group)
            }),
    {
        let each = Self::mesh_distances(samples, samples.len());
        lemma_comparable_has_a_nearest(each);
        let mesh = nearest_position(each);
        assert(self.mesh_samplable(samples, mesh));
        lemma_comparable_has_a_nearest(samples[mesh]@);
        let leaf = nearest_position(samples[mesh]@);
        assert(self.meshes.len() == self.meshes@.len());
        assert(samples[mesh].len() == samples[mesh]@.len());
        self.meshes@[mesh].geometry.lemma_leaves_are_primitives(leaf);
    }

    /// The surface of the scene that is nearest to a query point, where
    /// `samples[i]` holds the signed distance from that point to each leaf of
    /// mesh `i`, in the order of [`Geometry::leaves`].
    ///
    /// It lies on the first mesh whose distance is least, and is the first
    /// leaf of that mesh whose sample is least; no sample of the scene is
    /// below its distance.
    pub fn nearest<'a>(&'a self, samples: &Vec<Vec<Scalar>>) -> (r: Option<Contact<'a>>)
        ensures
            r is Some <==> self.samplable(samples@),
            r matches Some(contact) ==> {
                &&& contact == self.contact(samples@)
                &&& is_nearest(
                    Self::mesh_distances(samples@, samples@.len()),
                    contact.mesh as int,
                )
                &&& is_nearest(samples@[contact.mesh as int]@, contact.leaf as int)
                &&& contact.distance == samples@[contact.mesh as int]@[contact.leaf as int]
                &&& contact.material == self.meshes@[contact.mesh as int].material
                &&& *contact.geometry
                    == self.meshes@[contact.mesh as int].geometry.leaf_seq()[contact.leaf as int]
                &&& !(contact.geometry is Group)
                &&& forall|i: int, j: int|
                    0 <= i < samples@.len() && 0 <= j < samples@[i]@.len() ==> !(
                    #[trigger] samples@[i]@[j]).less_than(contact.distance)
            },
    {
        if samples.len() != self.meshes.len() {
            return None;
        }
        let ghost all = Self::mesh_distances(samples@, samples@.len());
        let mut best: Option<Contact<'a>> = None;
        let mut i: usize = 0;
        while i < self.meshes.len()
            invariant
                i <= self.meshes@.len(),
                samples@.len() == self.meshes@.len(),
                all == Self::mesh_distances(samples@, samples@.len()),
                forall|k: int| 0 <= k < i ==> self.mesh_samplable(samples@, k),
                best is None <==> i == 0,
                best matches Some(contact) ==> {
                    &&& contact.mesh < i
                    &&& comparable(all.take(i as int))
                    &&& is_nearest(all.take(i as int), contact.mesh as int)
                    &&& is_nearest(samples@[contact.mesh as int]@, contact.leaf as int)
                    &&& contact.distance == samples@[contact.mesh as int]@[contact.leaf as int]
                    &&& contact.material == self.meshes@[contact.mesh as int].material
                    &&& *contact.geometry
                        == self.meshes@[contact.mesh as int].geometry.leaf_seq()[contact.leaf as int]
                    &&& !(contact.geometry is Group)
                },
            decreases self.meshes@.len() - i,
        {
            let mesh = &self.meshes[i];
            let found = mesh.geometry.distance(&samples[i]);
            match found {
                None => {
                    proof {
                        assert(!self.mesh_samplable(samples@, i as int));
                    }
                    return None;
                },
                Some(near) => {
                    let contact = Contact {
                        mesh: i,
                        leaf: near.leaf,
                        geometry: near.geometry,
                        material: mesh.material,
                        distance: near.distance,
                    };
                    let ghost done = all.take(i as int);
                    let ghost one = seq![near.distance];
                    proof {
                        lemma_nearest_is_unique(
                            samples@[i as int]@,
                            nearest_position(samples@[i as int]@),
                            near.leaf as int,
                        );
                        assert(all[i as int] == near.distance);
                        assert(all.take(i + 1) =~= done + one);
                        assert(is_nearest(one, 0));
                    }
                    match best {
                        None => {
                            proof {
                                assert(all.take(i + 1) =~= one);
                            }
                            best = Some(contact);
                        },
                        Some(held) => {
                            proof {
                                assert(done[held.mesh as int] == held.distance);
                            }
                            if held.distance.is_nan() || near.distance.is_nan() {
                                proof {
                                    assert(all[held.mesh as int] == held.distance);
                                    assert(!comparable(all));
                                }
                                return None;
                            }
                            proof {
                                lemma_nearest_of_concatenation(done, one, held.mesh as int, 0);
                                assert forall|j: int| 0 <= j < i + 1 implies !(
                                #[trigger] all.take(i + 1)[j]).nan() by {
                                    if j < i {
                                        assert(all.take(i + 1)[j] == done[j]);
                                    }
                                }
                            }
                            if near.distance.lt(held.distance) {
                                best = Some(contact);
                            }
                        },
                    }
                },
            }
            i = i + 1;
        }
        proof {
            assert(all.take(i as int) =~= all);
            if let Some(contact) = best {
                lemma_nearest_is_unique(all, nearest_position(all), contact.mesh as int);
                lemma_nearest_is_unique(
                    samples@[contact.mesh as int]@,
                    nearest_position(samples@[contact.mesh as int]@),
                    contact.leaf as int,
                );
                assert forall|a: int, b: int|
                    0 <= a < samples@.len() && 0 <= b < samples@[a]@.len() implies !(
                #[trigger] samples@[a]@[b]).less_than(contact.distance) by {
                    assert(self.mesh_samplable(samples@, a));
                    let own = samples@[a]@;
                    let k = nearest_position(own);
                    if a == contact.mesh {
                    } else {
                        lemma_comparable_has_a_nearest(own);
                        assert(all[a] == own[k]);
                        assert(!own[b].less_than(own[k]));
                        assert(!all[a].less_than(all[contact.mesh as int]));
                        assert(!all[a].nan());
                    }
                }
            }
        }
        best
    }
}

} // verus!
