//! The march of a ray through the distance field.
//!
//! Sphere tracing walks a ray in steps: at the point reached it asks every
//! leaf of the scene for its distance, stops where the nearest surface is
//! within epsilon, and otherwise moves on by the least distance found, which
//! no surface can lie within. The arithmetic of a step (the point on the ray,
//! the samples, the sum of travel and advance) is the caller's; what the
//! samples decide is settled here.

use crate::scalar::{lemma_magnitude_of_normal, Scalar};
use crate::scene::{Color, Contact, Scene};
use crate::settings::RendererSettings;
use vstd::arithmetic::power2::{lemma2_to64, lemma_pow2_unfold, pow2};
use vstd::prelude::*;

verus! {

/// The bits of `10`: a march starts this many epsilons from the origin of
/// the ray, so that a ray leaving a surface does not find it again at once.
pub const START_FACTOR_BITS: u32 = 0x4120_0000;

/// [`START_FACTOR_BITS`] encodes the number 10.
pub proof fn lemma_start_factor_is_ten()
    ensures
        (Scalar { bits: START_FACTOR_BITS }).value() == 10 * pow2(149),
{
    lemma2_to64();
    lemma_magnitude_of_normal(130, 5, 21);
    lemma_pow2_unfold(150);
}

/// The number of steps after which a march is given up as a miss, however
/// far the ray has come: a field that keeps answering with distances near
/// zero costs an image a pixel, not the render its end.
pub const STEP_LIMIT: u32 = 100_000;

/// How far a ray has come.
#[derive(Clone, Copy, PartialEq, Eq, Structural, Debug)]
pub struct March {
    /// The distance travelled along the ray.
    pub t: Scalar,
    /// The number of steps taken.
    pub steps: u32,
}

/// What the samples taken at a point of the ray decide.
#[derive(Clone, Copy, Debug)]
pub enum Step<'a> {
    /// A light has been reached: the ray has its colour, unshaded.
    Emit { color: Color },
    /// A surface that is no light has been reached; it is to be shaded at
    /// this contact.
    Shade { contact: Contact<'a> },
    /// No surface is within epsilon: the ray moves on by `by`.
    Advance { by: Scalar },
}

impl March {
    /// A march that has travelled `first` before its first sample.
    pub fn start(first: Scalar) -> (r: March)
        ensures
            r == (March { t: first, steps: 0 }),
    {
        March { t: first, steps: 0 }
    }

    /// The march goes on: the ray has not come as far as `max_distance`,
    /// and fewer than `step_limit` steps were taken.
    pub open spec fn continues(&self, max_distance: Scalar, step_limit: u32) -> bool {
        self.t.less_than(max_distance) && self.steps < step_limit
    }

    /// Whether another sample is to be taken. Where not, the ray has missed.
    pub fn proceeds(&self, max_distance: Scalar, step_limit: u32) -> (r: bool)
        ensures
            r == self.continues(max_distance, step_limit),
    {
        self.t.lt(max_distance) && self.steps < step_limit
    }

    /// The march after one more step, which took the ray to `t`.
    pub open spec fn stepped(self, t: Scalar) -> March {
        March { t, steps: if self.steps < u32::MAX { (self.steps + 1) as u32 } else { self.steps } }
    }

    /// Records a step that took the ray to `t`.
    pub fn advance(self, t: Scalar) -> (r: March)
        ensures
            r == self.stepped(t),
    {
        March { t, steps: if self.steps < u32::MAX { self.steps + 1 } else { self.steps } }
    }
}

/// The march that has taken the steps `path` in turn, from `start`.
pub open spec fn march_along(start: March, path: Seq<Scalar>) -> March
    decreases path.len(),
{
    if path.len() == 0 {
        start
    } else {
        march_along(start, path.drop_last()).stepped(path.last())
    }
}

/// A march ends: after `n` steps it has counted `n` of them, as far as 32
/// bits count, so that after `step_limit` steps it goes on no more,
/// wherever the steps have led.
pub proof fn lemma_march_is_bounded(
    first: Scalar,
    path: Seq<Scalar>,
    max_distance: Scalar,
    step_limit: u32,
)
    ensures
        march_along(March { t: first, steps: 0 }, path).steps == (if path.len() <= u32::MAX {
            path.len()
        } else {
            u32::MAX as nat
        }),
        path.len() >= step_limit ==> !march_along(March { t: first, steps: 0 }, path).continues(
            max_distance,
            step_limit,
        ),
    decreases path.len(),
{
    if path.len() > 0 {
        lemma_march_is_bounded(first, path.drop_last(), max_distance, step_limit);
    }
}

/// What the nearest surface decides: reached within `epsilon`, it ends the
/// march, with the colour of a light or with a contact to shade; else the
/// ray moves on by its distance.
pub open spec fn decide<'a>(contact: Contact<'a>, epsilon: Scalar) -> Step<'a> {
    if contact.distance.less_than(epsilon) {
        if contact.material.is_light {
            Step::Emit { color: contact.material.base_color }
        } else {
            Step::Shade { contact }
        }
    } else {
        Step::Advance { by: contact.distance }
    }
}

/// No surface is reached where none is within epsilon: if the scene has a
/// nearest surface by its samples and no sample is below `epsilon`, the
/// ray moves on, by a distance that is not below `epsilon` either.
pub proof fn lemma_no_hit_beyond_epsilon(scene: Scene, samples: Seq<Vec<Scalar>>, epsilon: Scalar)
    requires
        scene.samplable(samples),
        forall|i: int, j: int|
            0 <= i < samples.len() && 0 <= j < samples[i]@.len() ==> !(
            #[trigger] samples[i]@[j]).less_than(epsilon),
    ensures
        decide(scene.contact(samples), epsilon) == (Step::Advance {
            by: scene.contact(samples).distance,
        }),
        !scene.contact(samples).distance.less_than(epsilon),
{
    scene.lemma_contact_is_a_sample(samples);
}

/// One step of the march, decided on the samples taken at the point that
/// the ray has reached: `samples[i]` holds the signed distance from that
/// point to each leaf of mesh `i` (see [`Scene::nearest`]).
///
/// Nothing is decided where the scene has no nearest surface by these
/// samples. Else the nearest surface decides as [`decide`] says.
pub fn march_step<'a>(
    scene: &'a Scene,
    settings: &RendererSettings,
    samples: &Vec<Vec<Scalar>>,
) -> (r: Option<Step<'a>>)
    ensures
        r is Some <==> scene.samplable(samples@),
        r matches Some(step) ==> step == decide(scene.contact(samples@), settings.epsilon),
        r matches Some(Step::Shade { contact }) ==> !(contact.geometry is Group),
        r matches Some(step) ==> (step is Advance <==> forall|i: int, j: int|
            0 <= i < samples@.len() && 0 <= j < samples@[i]@.len() ==> !(
            #[trigger] samples@[i]@[j]).less_than(settings.epsilon)),
{
    match scene.nearest(samples) {
        None => None,
        Some(contact) => {
            let step = if contact.distance.lt(settings.epsilon) {
                if contact.material.is_light {
                    Step::Emit { color: contact.material.base_color }
                } else {
                    Step::Shade { contact }
                }
            } else {
                Step::Advance { by: contact.distance }
            };
            proof {
                assert(step == decide(contact, settings.epsilon));
                if !contact.distance.less_than(settings.epsilon) {
                    assert forall|i: int, j: int|
                        0 <= i < samples@.len() && 0 <= j < samples@[i]@.len() implies !(
                    #[trigger] samples@[i]@[j]).less_than(settings.epsilon) by {
                        let each = Scene::mesh_distances(samples@, samples@.len());
                        assert(scene.mesh_samplable(samples@, i));
                        assert(each[contact.mesh as int] == contact.distance);
                        assert(!samples@[i]@[j].less_than(contact.distance));
                        if contact.distance.nan() {
                            assert(each.len() == 1);
                            assert(samples@[i]@.len() == 1);
                        }
                    }
                }
            }
            Some(step)
        },
    }
}

} // verus!
