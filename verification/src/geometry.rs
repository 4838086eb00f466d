//! The shapes of a scene.
//!
//! A [`Geometry`] is a sphere, a triangle or a group of further geometries.
//! Its leaves, read from left to right, are the primitives whose distance to a
//! query point the caller samples; [`Geometry::distance`] then finds, in the
//! tree, the leaf that is nearest.

use crate::nearest::{
    comparable, is_nearest, least_distance, lemma_nearest_exists, lemma_nearest_is_unique,
    lemma_nearest_of_concatenation, nearest_position,
};
use crate::scalar::{Scalar, INFINITY_BITS, SIGN_BIT};
use vstd::prelude::*;

verus! {

/// Three scalars: a position, a direction or a colour.
#[derive(Clone, Copy, PartialEq, Eq, Structural, Debug)]
pub struct Vector {
    pub x: Scalar,
    pub y: Scalar,
    pub z: Scalar,
}

/// A position in world space.
pub type Point = Vector;

impl Vector {
    /// The vector can be scaled to unit length: its components are finite
    /// numbers, and not all of them are zero.
    pub open spec fn has_direction(self) -> bool {
        &&& self.x.unsigned_bits() < INFINITY_BITS
        &&& self.y.unsigned_bits() < INFINITY_BITS
        &&& self.z.unsigned_bits() < INFINITY_BITS
        &&& (self.x.unsigned_bits() != 0 || self.y.unsigned_bits() != 0 || self.z.unsigned_bits()
            != 0)
    }

    /// Whether the vector can be scaled to unit length.
    pub fn is_direction(&self) -> (r: bool)
        ensures
            r == self.has_direction(),
    {
        let x = self.x.to_bits() % SIGN_BIT;
        let y = self.y.to_bits() % SIGN_BIT;
        let z = self.z.to_bits() % SIGN_BIT;
        x < INFINITY_BITS && y < INFINITY_BITS && z < INFINITY_BITS && (x != 0 || y != 0 || z != 0)
    }
}

/// A homogeneous transform, `rows[r][c]` being the entry of row `r` and
/// column `c`.
#[derive(Clone, Copy, Debug)]
pub struct Matrix {
    pub rows: [[Scalar; 4]; 4],
}

/// A shape, or a collection of shapes.
#[derive(Debug)]
pub enum Geometry {
    /// All points within `radius` of `center`.
    Sphere { center: Point, radius: Scalar },
    /// A bounded triangle, kept as what is derived from its vertices once:
    /// the two edge vectors from the first vertex and their cross product
    /// (`axes`), a sphere around the centroid that holds all three vertices,
    /// the transform `transform_01` from world space into the frame spanned
    /// by `axes` at the first vertex, and its inverse `transform_10`.
    Triangle {
        axes: [Vector; 3],
        bounding_sphere_center: Point,
        bounding_sphere_radius: Scalar,
        transform_01: Matrix,
        transform_10: Matrix,
    },
    /// Several geometries taken as one; its distance is the least of theirs.
    Group { geometry: Vec<Geometry> },
}

/// The leaf of a geometry that lies nearest, as [`Geometry::distance`] finds it.
#[derive(Clone, Copy, Debug)]
pub struct Nearest<'a> {
    /// The position of the leaf among the leaves of the geometry.
    pub leaf: usize,
    /// The leaf itself.
    pub geometry: &'a Geometry,
    /// The sampled distance of that leaf.
    pub distance: Scalar,
}

impl Geometry {
    /// The spheres and triangles of the geometry, from left to right.
    pub open spec fn leaf_seq(self) -> Seq<Geometry>
        decreases self,
    {
        match self {
            Geometry::Group { geometry } => Self::leaves_of(geometry@, geometry@.len()),
            _ => seq![self],
        }
    }

    /// The leaves of the first `n` of `children`, from left to right.
    pub open spec fn leaves_of(children: Seq<Geometry>, n: nat) -> Seq<Geometry>
        decreases children, n,
    {
        if n == 0 || n > children.len() {
            Seq::empty()
        } else {
            Self::leaves_of(children, (n - 1) as nat) + children[n - 1].leaf_seq()
        }
    }

    /// No group in the geometry is without children, so that it has a leaf
    /// and a distance.
    pub open spec fn solid(self) -> bool
        decreases self,
    {
        match self {
            Geometry::Group { geometry } => geometry@.len() > 0 && forall|i: int|
                0 <= i < geometry@.len() ==> (#[trigger] geometry@[i]).solid(),
            _ => true,
        }
    }

    /// Every entry of the leaf sequence is a sphere or a triangle.
    pub proof fn lemma_leaves_are_primitives(self, k: int)
        requires
            0 <= k < self.leaf_seq().len(),
        ensures
            !(self.leaf_seq()[k] is Group),
        decreases self,
    {
        match self {
            Geometry::Group { geometry } => {
                Self::lemma_leaves_of_are_primitives(geometry@, geometry@.len(), k);
            },
            _ => {},
        }
    }

    /// Every leaf of the first `n` children is a sphere or a triangle.
    pub proof fn lemma_leaves_of_are_primitives(children: Seq<Geometry>, n: nat, k: int)
        requires
            0 <= k < Self::leaves_of(children, n).len(),
        ensures
            !(Self::leaves_of(children, n)[k] is Group),
        decreases children, n,
    {
        if n == 0 || n > children.len() {
        } else {
            let before = Self::leaves_of(children, (n - 1) as nat);
            if k < before.len() {
                Self::lemma_leaves_of_are_primitives(children, (n - 1) as nat, k);
            } else {
                children[n - 1].lemma_leaves_are_primitives(k - before.len());
            }
        }
    }

    /// A solid geometry has at least one leaf.
    pub proof fn lemma_solid_has_a_leaf(self)
        requires
            self.solid(),
        ensures
            self.leaf_seq().len() >= 1,
        decreases self,
    {
        match self {
            Geometry::Group { geometry } => {
                let n = geometry@.len();
                geometry@[n - 1].lemma_solid_has_a_leaf();
            },
            _ => {},
        }
    }

    /// The leaves of fewer children are the first leaves of more children.
    pub proof fn lemma_leaves_of_extends(children: Seq<Geometry>, a: nat, b: nat)
        requires
            a <= b <= children.len(),
        ensures
            Self::leaves_of(children, a).len() <= Self::leaves_of(children, b).len(),
            Self::leaves_of(children, a) =~= Self::leaves_of(children, b).take(
                Self::leaves_of(children, a).len() as int,
            ),
        decreases b,
    {
        if a < b {
            Self::lemma_leaves_of_extends(children, a, (b - 1) as nat);
        }
    }
}

impl Geometry {
    /// The leaves of the geometry, from left to right: the primitives to
    /// sample, in the order in which [`Geometry::distance`] reads the samples.
    pub fn leaves(&self) -> (r: Vec<&Geometry>)
        ensures
            r@.len() == self.leaf_seq().len(),
            forall|k: int| 0 <= k < r@.len() ==> *(#[trigger] r@[k]) == self.leaf_seq()[k],
            forall|k: int| 0 <= k < r@.len() ==> !((#[trigger] r@[k]) is Group),
    {
        let mut out: Vec<&Geometry> = Vec::new();
        let ghost start = out@.len();
        self.gather(&mut out);
        proof {
            assert forall|k: int| 0 <= k < out@.len() implies *(#[trigger] out@[k])
                == self.leaf_seq()[k] && !(out@[k] is Group) by {
                assert(*out@[start + k] == self.leaf_seq()[k]);
                self.lemma_leaves_are_primitives(k);
            }
        }
        out
    }

    /// Appends the leaves of the geometry to `out`.
    fn gather<'a>(&'a self, out: &mut Vec<&'a Geometry>)
        ensures
            final(out)@.len() == old(out)@.len() + self.leaf_seq().len(),
            forall|k: int| 0 <= k < old(out)@.len() ==> final(out)@[k] == old(out)@[k],
            forall|k: int|
                0 <= k < self.leaf_seq().len() ==> *(#[trigger] final(out)@[old(out)@.len() + k])
                    == self.leaf_seq()[k],
        decreases self,
    {
        match self {
            Geometry::Group { geometry } => {
                let mut i: usize = 0;
                while i < geometry.len()
                    invariant
                        i <= geometry@.len(),
                        self matches Geometry::Group { geometry: g } && g == geometry,
                        out@.len() == old(out)@.len() + Self::leaves_of(geometry@, i as nat).len(),
                        forall|k: int| 0 <= k < old(out)@.len() ==> out@[k] == old(out)@[k],
                        forall|k: int|
                            0 <= k < Self::leaves_of(geometry@, i as nat).len() ==> *(
                            #[trigger] out@[old(out)@.len() + k]) == Self::leaves_of(
                                geometry@,
                                i as nat,
                            )[k],
                    decreases geometry@.len() - i,
                {
                    let ghost before = out@;
                    geometry[i].gather(out);
                    proof {
                        let done = Self::leaves_of(geometry@, i as nat);
                        let more = Self::leaves_of(geometry@, (i + 1) as nat);
                        assert(more == done + geometry@[i as int].leaf_seq());
                        assert forall|k: int| 0 <= k < more.len() implies *(
                        #[trigger] out@[old(out)@.len() + k]) == more[k] by {
                            if k < done.len() {
                                assert(out@[old(out)@.len() + k] == before[old(out)@.len() + k]);
                            } else {
                                assert(old(out)@.len() + k == before.len() + (k - done.len()));
                            }
                        }
                    }
                    i = i + 1;
                }
            },
            _ => {
                out.push(self);
            },
        }
    }

    /// The nearest leaf of a geometry whose leaves have these samples: the
    /// first leaf whose sample is least.
    pub open spec fn nearest_leaf<'a>(&'a self, samples: Seq<Scalar>) -> Nearest<'a> {
        let leaf = nearest_position(samples);
        Nearest { leaf: leaf as usize, geometry: &self.leaf_seq()[leaf], distance: samples[leaf] }
    }

    /// The nearest leaf of the geometry, where `samples` holds the signed
    /// distance from the query point to each leaf, in the order of
    /// [`Geometry::leaves`].
    ///
    /// A group answers with the least of its children's answers, and with
    /// the earlier child where two are level; so the answer is the first
    /// leaf whose sample is least. There is none where a group has no
    /// children, where `samples` does not hold one distance per leaf, or
    /// where a NaN would have to be compared.
    pub fn distance<'a>(&'a self, samples: &Vec<Scalar>) -> (r: Option<Nearest<'a>>)
        ensures
            r is Some <==> self.solid() && samples@.len() == self.leaf_seq().len() && comparable(
                samples@,
            ),
            r matches Some(near) ==> {
                &&& near == self.nearest_leaf(samples@)
                &&& is_nearest(samples@, near.leaf as int)
                &&& near.distance == samples@[near.leaf as int]
                &&& *near.geometry == self.leaf_seq()[near.leaf as int]
                &&& !(near.geometry is Group)
            },
    {
        let found = self.nearest_from(samples, 0);
        proof {
            let n = self.leaf_seq().len();
            if n <= samples@.len() {
                assert(samples@.subrange(0, samples@.len() as int) =~= samples@);
            }
        }
        match found {
            Some((near, end)) => {
                if end == samples.len() {
                    proof {
                        self.lemma_leaves_are_primitives(near.leaf as int);
                        lemma_nearest_is_unique(
                            samples@,
                            nearest_position(samples@),
                            near.leaf as int,
                        );
                    }
                    Some(near)
                } else {
                    None
                }
            },
            None => None,
        }
    }

    /// The nearest leaf of the geometry where its leaves have the samples
    /// from position `base` on, and the position behind its last sample.
    fn nearest_from<'a>(&'a self, samples: &Vec<Scalar>, base: usize) -> (r: Option<
        (Nearest<'a>, usize),
    >)
        requires
            base <= samples@.len(),
        ensures
            r is Some <==> self.solid() && base + self.leaf_seq().len() <= samples@.len()
                && comparable(
                samples@.subrange(base as int, base + self.leaf_seq().len()),
            ),
            r matches Some((near, end)) ==> {
                &&& end == base + self.leaf_seq().len()
                &&& base <= near.leaf < end
                &&& is_nearest(samples@.subrange(base as int, end as int), near.leaf - base)
                &&& near.distance == samples@[near.leaf as int]
                &&& *near.geometry == self.leaf_seq()[near.leaf - base]
            },
        decreases self,
    {
        match self {
            Geometry::Group { geometry } => {
                let mut best: Option<Nearest<'a>> = None;
                let mut cursor: usize = base;
                let mut i: usize = 0;
                while i < geometry.len()
                    invariant
                        i <= geometry@.len(),
                        self matches Geometry::Group { geometry: g } && g == geometry,
                        base <= cursor <= samples@.len(),
                        cursor == base + Self::leaves_of(geometry@, i as nat).len(),
                        forall|k: int| 0 <= k < i ==> (#[trigger] geometry@[k]).solid(),
                        best is None <==> i == 0,
                        best matches Some(near) ==> {
                            &&& base <= near.leaf < cursor
                            &&& comparable(samples@.subrange(base as int, cursor as int))
                            &&& is_nearest(
                                samples@.subrange(base as int, cursor as int),
                                near.leaf - base,
                            )
                            &&& near.distance == samples@[near.leaf as int]
                            &&& *near.geometry == Self::leaves_of(geometry@, i as nat)[near.leaf
                                - base]
                        },
                    decreases geometry@.len() - i,
                {
                    let child = &geometry[i];
                    let found = child.nearest_from(samples, cursor);
                    proof {
                        Self::lemma_leaves_of_extends(
                            geometry@,
                            (i + 1) as nat,
                            geometry@.len(),
                        );
                        Self::lemma_leaves_of_extends(geometry@, i as nat, (i + 1) as nat);
                        if child.solid() {
                            child.lemma_solid_has_a_leaf();
                        }
                    }
                    let ghost total = self.leaf_seq().len();
                    let ghost width = child.leaf_seq().len();
                    let ghost whole = samples@.subrange(base as int, base + total);
                    match found {
                        None => {
                            proof {
                                if self.solid() && base + total <= samples@.len() && comparable(
                                    whole,
                                ) {
                                    let part = samples@.subrange(cursor as int, cursor + width);
                                    assert(!comparable(part));
                                    let j = choose|j: int| 0 <= j < part.len() && part[j].nan();
                                    assert(whole[cursor - base + j] == part[j]);
                                }
                            }
                            return None;
                        },
                        Some((near, end)) => {
                            let ghost part = samples@.subrange(cursor as int, end as int);
                            let ghost done = samples@.subrange(base as int, cursor as int);
                            let ghost both = samples@.subrange(base as int, end as int);
                            proof {
                                assert(both =~= done + part);
                            }
                            match best {
                                None => {
                                    proof {
                                        assert(both =~= part);
                                    }
                                    best = Some(near);
                                },
                                Some(held) => {
                                    if held.distance.is_nan() || near.distance.is_nan() {
                                        proof {
                                            if self.solid() && base + total <= samples@.len()
                                                && comparable(whole) {
                                                assert(whole[held.leaf - base]
                                                    == samples@[held.leaf as int]);
                                                assert(whole[near.leaf - base]
                                                    == samples@[near.leaf as int]);
                                            }
                                        }
                                        return None;
                                    }
                                    proof {
                                        assert(done[held.leaf - base] == held.distance);
                                        assert(part[near.leaf - cursor] == near.distance);
                                        lemma_nearest_of_concatenation(
                                            done,
                                            part,
                                            held.leaf - base,
                                            near.leaf - cursor,
                                        );
                                        assert forall|j: int| 0 <= j < both.len() implies !(
                                        #[trigger] both[j]).nan() by {
                                            if j < done.len() {
                                                assert(both[j] == done[j]);
                                            } else {
                                                assert(both[j] == part[j - done.len()]);
                                            }
                                        }
                                    }
                                    if near.distance.lt(held.distance) {
                                        best = Some(near);
                                    }
                                },
                            }
                            cursor = end;
                        },
                    }
                    i = i + 1;
                }
                match best {
                    None => None,
                    Some(near) => {
                        proof {
                            assert(samples@.subrange(base as int, cursor as int)
                                == samples@.subrange(
                                base as int,
                                base + self.leaf_seq().len(),
                            ));
                        }
                        Some((near, cursor))
                    },
                }
            },
            _ => {
                if base < samples.len() {
                    let near = Nearest { leaf: base, geometry: self, distance: samples[base] };
                    proof {
                        let window = samples@.subrange(base as int, base + 1);
                        assert(window[0] == samples@[base as int]);
                    }
                    Some((near, base + 1))
                } else {
                    None
                }
            },
        }
    }
}

impl Geometry {
    /// Where the samples of child `i` begin among the samples of a group
    /// with these `children`.
    pub open spec fn child_offset(children: Seq<Geometry>, i: int) -> int {
        Self::leaves_of(children, i as nat).len() as int
    }

    /// The samples that belong to the leaves of child `i`.
    pub open spec fn child_samples(children: Seq<Geometry>, samples: Seq<Scalar>, i: int) -> Seq<
        Scalar,
    > {
        samples.subrange(Self::child_offset(children, i), Self::child_offset(children, i + 1))
    }

    /// The distance of each of the first `n` children: the least of its
    /// own samples.
    pub open spec fn child_distances(children: Seq<Geometry>, samples: Seq<Scalar>, n: nat) -> Seq<
        Scalar,
    > {
        Seq::new(n, |i: int| least_distance(Self::child_samples(children, samples, i)))
    }

    /// The samples of a solid child are a stretch of the group's samples that
    /// is not empty.
    proof fn lemma_child_samples(children: Seq<Geometry>, samples: Seq<Scalar>, i: int)
        requires
            0 <= i < children.len(),
            children[i].solid(),
            samples.len() == Self::leaves_of(children, children.len()).len(),
        ensures
            0 <= Self::child_offset(children, i) < Self::child_offset(children, i + 1)
                <= samples.len(),
            Self::child_offset(children, i + 1) == Self::child_offset(children, i)
                + children[i].leaf_seq().len(),
    {
        children[i].lemma_solid_has_a_leaf();
        Self::lemma_leaves_of_extends(children, (i + 1) as nat, children.len());
    }

    /// The law of groups, for the first `n` children of a group.
    proof fn lemma_least_of_first_children(
        children: Seq<Geometry>,
        samples: Seq<Scalar>,
        n: nat,
    )
        requires
            1 <= n <= children.len(),
            forall|i: int| 0 <= i < children.len() ==> (#[trigger] children[i]).solid(),
            samples.len() == Self::leaves_of(children, children.len()).len(),
            forall|j: int| 0 <= j < samples.len() ==> !(#[trigger] samples[j]).nan(),
        ensures
            ({
                let seen = samples.take(Self::child_offset(children, n as int));
                let each = Self::child_distances(children, samples, n);
                let winner = nearest_position(each);
                let inner = Self::child_samples(children, samples, winner);
                &&& is_nearest(each, winner)
                &&& is_nearest(inner, nearest_position(inner))
                &&& is_nearest(seen, nearest_position(seen))
                &&& nearest_position(seen) == Self::child_offset(children, winner)
                    + nearest_position(inner)
                &&& seen[nearest_position(seen)] == each[winner]
                &&& forall|i: int| 0 <= i < n ==> !(#[trigger] each[i]).nan()
            }),
        decreases n,
    {
        let seen = samples.take(Self::child_offset(children, n as int));
        let each = Self::child_distances(children, samples, n);
        let part = Self::child_samples(children, samples, n - 1);
        Self::lemma_child_samples(children, samples, n - 1);
        lemma_nearest_exists(part);
        let kb = nearest_position(part);
        let tail = seq![part[kb]];
        assert(is_nearest(tail, 0));
        if n == 1 {
            assert(seen =~= part);
            assert(each =~= tail);
            lemma_nearest_is_unique(each, nearest_position(each), 0);
        } else {
            Self::lemma_least_of_first_children(children, samples, (n - 1) as nat);
            let seen0 = samples.take(Self::child_offset(children, n - 1));
            let each0 = Self::child_distances(children, samples, (n - 1) as nat);
            let ka = nearest_position(seen0);
            let w0 = nearest_position(each0);
            assert(seen =~= seen0 + part);
            assert(each =~= each0 + tail);
            lemma_nearest_of_concatenation(seen0, part, ka, kb);
            lemma_nearest_of_concatenation(each0, tail, w0, 0);
            if part[kb].less_than(seen0[ka]) {
                lemma_nearest_is_unique(seen, nearest_position(seen), seen0.len() + kb);
                lemma_nearest_is_unique(each, nearest_position(each), each0.len() as int);
            } else {
                lemma_nearest_is_unique(seen, nearest_position(seen), ka);
                lemma_nearest_is_unique(each, nearest_position(each), w0);
            }
        }
    }

    /// The distance of a group is the least of its children's distances, at
    /// every depth of nesting: where each child is given the least of the
    /// samples of its own leaves, the least of those is the least sample of
    /// the whole group, and the nearest leaf of the group is the nearest
    /// leaf of the first child that attains it.
    pub proof fn lemma_group_distance_is_least_of_children(
        children: Seq<Geometry>,
        samples: Seq<Scalar>,
    )
        requires
            children.len() > 0,
            forall|i: int| 0 <= i < children.len() ==> (#[trigger] children[i]).solid(),
            samples.len() == Self::leaves_of(children, children.len()).len(),
            forall|j: int| 0 <= j < samples.len() ==> !(#[trigger] samples[j]).nan(),
        ensures
            ({
                let each = Self::child_distances(children, samples, children.len());
                let winner = nearest_position(each);
                let inner = Self::child_samples(children, samples, winner);
                &&& is_nearest(samples, nearest_position(samples))
                &&& is_nearest(each, winner)
                &&& least_distance(samples) == least_distance(each)
                &&& nearest_position(samples) == Self::child_offset(children, winner)
                    + nearest_position(inner)
            }),
    {
        Self::lemma_least_of_first_children(children, samples, children.len());
        assert(samples.take(Self::child_offset(children, children.len() as int)) =~= samples);
    }
}

} // verus!
