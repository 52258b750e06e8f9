use crate::csg::{
    combine, combined, is_single_span, lemma_combined_pairs_sorted, lemma_difference_disjoint, lemma_difference_self,
    lemma_intersection_idempotent, pairs_sorted, spans_disjoint, Boundary, CsgOp,
};
use vstd::prelude::*;

verus! {

/// A solid: a primitive of the caller's, or a boolean combination of two
/// solids, each owned by the node that combines them.
pub enum Shape<P> {
    Primitive(P),
    Intersection(Box<Shape<P>>, Box<Shape<P>>),
    Difference(Box<Shape<P>>, Box<Shape<P>>),
}

/// The entry/exit pairs of each primitive along one ray, as plain sequences.
pub open spec fn hit_lists<T>(leaf_hits: Seq<Vec<(Boundary<T>, Boundary<T>)>>) -> Seq<
    Seq<(Boundary<T>, Boundary<T>)>,
> {
    leaf_hits.map_values(|v: Vec<(Boundary<T>, Boundary<T>)>| v@)
}

impl<P> Shape<P> {
    /// The primitives of the tree, left to right.
    pub open spec fn primitives(&self) -> Seq<P>
        decreases self,
    {
        match self {
            Shape::Primitive(p) => seq![*p],
            Shape::Intersection(a, b) => a.primitives() + b.primitives(),
            Shape::Difference(a, b) => a.primitives() + b.primitives(),
        }
    }

    /// The entry/exit pairs of the solid along a ray, where `leaf_hits`
    /// holds those of its primitives in the order of `primitives`.
    pub open spec fn hits<T>(&self, leaf_hits: Seq<Seq<(Boundary<T>, Boundary<T>)>>) -> Seq<
        (Boundary<T>, Boundary<T>),
    >
        decreases self,
    {
        match self {
            Shape::Primitive(_) => leaf_hits[0],
            Shape::Intersection(a, b) => combined(
                CsgOp::Intersection,
                a.hits(leaf_hits),
                b.hits(leaf_hits.skip(a.primitives().len() as int)),
            ),
            Shape::Difference(a, b) => combined(
                CsgOp::Difference,
                a.hits(leaf_hits),
                b.hits(leaf_hits.skip(a.primitives().len() as int)),
            ),
        }
    }

    /// References to the primitives of the tree, left to right: the order in
    /// which `all_intersections` expects their entry/exit pairs.
    pub fn primitive_refs(&self) -> (r: Vec<&P>)
        ensures
            r@.map_values(|p: &P| *p) == self.primitives(),
        decreases self,
    {
        match self {
            Shape::Primitive(p) => {
                let mut r: Vec<&P> = Vec::new();
                r.push(p);
                proof {
                    assert(r@.map_values(|p: &P| *p) =~= self.primitives());
                }
                r
            },
            Shape::Intersection(a, b) | Shape::Difference(a, b) => {
                let mut r = a.primitive_refs();
                let mut rb = b.primitive_refs();
                let ghost ra = r@;
                let ghost rb0 = rb@;
                r.append(&mut rb);
                proof {
                    assert(r@.map_values(|p: &P| *p) =~= ra.map_values(|p: &P| *p) + rb0.map_values(
                        |p: &P| *p,
                    ));
                }
                r
            },
        }
    }
}

/// A copy of a list of entry/exit pairs.
fn copy_pairs<T: Copy>(v: &Vec<(Boundary<T>, Boundary<T>)>) -> (r: Vec<(Boundary<T>, Boundary<T>)>)
    ensures
        r@ == v@,
{
    let mut r: Vec<(Boundary<T>, Boundary<T>)> = Vec::new();
    let mut i: usize = 0;
    while i < v.len()
        invariant
            i <= v@.len(),
            r@ == v@.take(i as int),
        decreases v@.len() - i,
    {
        r.push(v[i]);
        assert(v@.take(i + 1) =~= v@.take(i as int).push(v@[i as int]));
        i = i + 1;
    }
    assert(v@.take(i as int) =~= v@);
    r
}

impl<P> Shape<P> {
    /// The pairs of the solid, reading the pairs of its primitives from
    /// `leaf_hits` from position `first` on; also the number of primitives.
    fn hits_from<T: Copy>(&self, leaf_hits: &Vec<Vec<(Boundary<T>, Boundary<T>)>>, first: usize) -> (r: (
        Vec<(Boundary<T>, Boundary<T>)>,
        usize,
    ))
        requires
            first + self.primitives().len() <= leaf_hits@.len(),
        ensures
            r.0@ == self.hits(hit_lists(leaf_hits@).skip(first as int)),
            r.1 == self.primitives().len(),
        decreases self,
    {
        match self {
            Shape::Primitive(_) => {
                let r = copy_pairs(&leaf_hits[first]);
                (r, 1)
            },
            Shape::Intersection(a, b) => {
                assert(self.primitives().len() == a.primitives().len() + b.primitives().len());
                let (ra, na) = a.hits_from(leaf_hits, first);
                assert(first + na <= leaf_hits.len());
                let (rb, nb) = b.hits_from(leaf_hits, first + na);
                proof {
                    assert(hit_lists(leaf_hits@).skip(first as int).skip(na as int) =~= hit_lists(
                        leaf_hits@,
                    ).skip(first + na));
                }
                (combine(CsgOp::Intersection, &ra, &rb), na + nb)
            },
            Shape::Difference(a, b) => {
                assert(self.primitives().len() == a.primitives().len() + b.primitives().len());
                let (ra, na) = a.hits_from(leaf_hits, first);
                assert(first + na <= leaf_hits.len());
                let (rb, nb) = b.hits_from(leaf_hits, first + na);
                proof {
                    assert(hit_lists(leaf_hits@).skip(first as int).skip(na as int) =~= hit_lists(
                        leaf_hits@,
                    ).skip(first + na));
                }
                (combine(CsgOp::Difference, &ra, &rb), na + nb)
            },
        }
    }

    /// Every entry/exit pair of the solid along a ray, nearest first, given
    /// those of its primitives along the same ray in the order of
    /// `primitive_refs`.
    pub fn all_intersections<T: Copy>(&self, leaf_hits: &Vec<Vec<(Boundary<T>, Boundary<T>)>>) -> (r:
        Vec<(Boundary<T>, Boundary<T>)>)
        requires
            self.primitives().len() <= leaf_hits@.len(),
        ensures
            r@ == self.hits(hit_lists(leaf_hits@)),
    {
        assert(hit_lists(leaf_hits@).skip(0) =~= hit_lists(leaf_hits@));
        self.hits_from(leaf_hits, 0).0
    }

    /// The first entry/exit pair of the solid along a ray, if the ray meets
    /// it.
    pub fn first_intersection<T: Copy>(&self, leaf_hits: &Vec<Vec<(Boundary<T>, Boundary<T>)>>) -> (r:
        Option<(Boundary<T>, Boundary<T>)>)
        requires
            self.primitives().len() <= leaf_hits@.len(),
        ensures
            r == (if self.hits(hit_lists(leaf_hits@)).len() == 0 {
                None
            } else {
                Some(self.hits(hit_lists(leaf_hits@))[0])
            }),
    {
        let all = self.all_intersections(leaf_hits);
        if all.len() == 0 {
            None
        } else {
            Some(all[0])
        }
    }
}

/// The intersection of a primitive with a copy of itself meets a ray where
/// the primitive alone does, for a primitive crossed at most once.
pub proof fn lemma_shape_intersection_idempotent<P, T>(p: P, h: Seq<(Boundary<T>, Boundary<T>)>)
    requires
        is_single_span(h),
    ensures
        Shape::Intersection(Box::new(Shape::Primitive(p)), Box::new(Shape::Primitive(p))).hits(
            seq![h, h],
        ) == h,
{
    let leaf: Box<Shape<P>> = Box::new(Shape::Primitive(p));
    let leaves = seq![h, h];
    assert(leaves.skip(1) =~= seq![h]);
    assert(leaf.primitives().len() == 1);
    assert(leaf.hits(leaves) == h);
    assert(leaf.hits(leaves.skip(1)) == h);
    lemma_intersection_idempotent(h);
}

/// Cutting a primitive that a ray crosses nowhere near the first leaves the
/// first one's pairs along that ray unchanged.
pub proof fn lemma_shape_difference_disjoint<P, T>(
    p: P,
    q: P,
    hp: Seq<(Boundary<T>, Boundary<T>)>,
    hq: Seq<(Boundary<T>, Boundary<T>)>,
)
    requires
        is_single_span(hp),
        is_single_span(hq),
        spans_disjoint(hp, hq),
    ensures
        Shape::Difference(Box::new(Shape::Primitive(p)), Box::new(Shape::Primitive(q))).hits(
            seq![hp, hq],
        ) == hp,
{
    let a: Box<Shape<P>> = Box::new(Shape::Primitive(p));
    let b: Box<Shape<P>> = Box::new(Shape::Primitive(q));
    let leaves = seq![hp, hq];
    assert(leaves.skip(1) =~= seq![hq]);
    assert(a.primitives().len() == 1);
    assert(a.hits(leaves) == hp);
    assert(b.hits(leaves.skip(1)) == hq);
    lemma_difference_disjoint(hp, hq);
}

/// Cutting a primitive from a copy of itself leaves nothing along the ray.
pub proof fn lemma_shape_difference_self<P, T>(p: P, h: Seq<(Boundary<T>, Boundary<T>)>)
    requires
        is_single_span(h),
    ensures
        Shape::Difference(Box::new(Shape::Primitive(p)), Box::new(Shape::Primitive(p))).hits(
            seq![h, h],
        ).len() == 0,
{
    let leaf: Box<Shape<P>> = Box::new(Shape::Primitive(p));
    let leaves = seq![h, h];
    assert(leaves.skip(1) =~= seq![h]);
    assert(leaf.primitives().len() == 1);
    assert(leaf.hits(leaves) == h);
    assert(leaf.hits(leaves.skip(1)) == h);
    lemma_difference_self(h);
}

impl<P> Shape<P> {
    /// Along any ray, a solid's entry/exit pairs come nearest first, each
    /// entering strictly before it exits and exiting no later than the next
    /// enters; so `first_intersection` gives the nearest pair. A combination
    /// orders its pairs itself; a lone primitive's are taken as given.
    pub proof fn lemma_hits_sorted<T>(&self, leaf_hits: Seq<Seq<(Boundary<T>, Boundary<T>)>>)
        requires
            self.primitives().len() <= leaf_hits.len(),
            self is Primitive ==> pairs_sorted(leaf_hits[0]),
        ensures
            pairs_sorted(self.hits(leaf_hits)),
    {
        match self {
            Shape::Primitive(_) => {},
            Shape::Intersection(a, b) => {
                lemma_combined_pairs_sorted(
                    CsgOp::Intersection,
                    a.hits(leaf_hits),
                    b.hits(leaf_hits.skip(a.primitives().len() as int)),
                );
            },
            Shape::Difference(a, b) => {
                lemma_combined_pairs_sorted(
                    CsgOp::Difference,
                    a.hits(leaf_hits),
                    b.hits(leaf_hits.skip(a.primitives().len() as int)),
                );
            },
        }
    }
}

} // verus!
