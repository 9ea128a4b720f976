//! The shape capability: the minimal contract a 2-D shape type must satisfy
//! to be indexable by the containment tree.

use vstd::prelude::*;
use vstd::multiset::Multiset;

verus! {

/// A planar point with integer coordinates.
#[derive(Clone, Copy, PartialEq, Eq, Structural, Debug)]
pub struct Point {
    pub x: i64,
    pub y: i64,
}

/// The capability any concrete 2-D shape type must provide to participate in
/// the containment tree: an area measure, a point-membership test, a bounding
/// box, and a representative interior point.
///
/// The spec functions give the mathematical account of the shape; each
/// executable method is required to agree with it on well-formed shapes.
/// Their default bodies are unconstrained placeholders: a realization that
/// wants anything proved about its trees overrides all of them, while an
/// unverified realization outside the library may leave them be.
pub trait Shape: Sized {
    /// The shape's non-negative area measure.
    open spec fn spec_area(&self) -> nat {
        vstd::pervasive::arbitrary()
    }

    /// Whether `p` lies inside the shape.
    open spec fn spec_contains_point(&self, p: Point) -> bool {
        vstd::pervasive::arbitrary()
    }

    /// The representative interior point.
    open spec fn spec_center(&self) -> Point {
        vstd::pervasive::arbitrary()
    }

    /// The bounding box, as (min corner, max corner).
    open spec fn spec_bounding_rect(&self) -> (Point, Point) {
        vstd::pervasive::arbitrary()
    }

    /// Which shape values are valid inputs for the executable methods.
    open spec fn wf(&self) -> bool {
        vstd::pervasive::arbitrary()
    }

    /// The area measure, as a machine integer.
    fn area(&self) -> (r: u64)
        requires
            self.wf(),
        ensures
            r as nat == self.spec_area(),
    ;

    /// Whether `point` lies inside the shape.
    fn contains_point(&self, point: Point) -> (r: bool)
        requires
            self.wf(),
        ensures
            r == self.spec_contains_point(point),
    ;

    /// The bounding box, as (min corner, max corner).
    fn bounding_rect(&self) -> (r: (Point, Point))
        requires
            self.wf(),
        ensures
            r == self.spec_bounding_rect(),
    ;

    /// A representative point guaranteed to lie in the shape's interior
    /// whenever the shape has one.
    fn center_point(&self) -> (r: Point)
        requires
            self.wf(),
        ensures
            r == self.spec_center(),
    ;

    /// The fast approximate containment test: `self` is said to contain
    /// `rhs` iff `self`'s area is at least `rhs`'s and `rhs`'s
    /// representative point lies inside `self`.
    ///
    /// The ensures clause spells out the same relation that
    /// `spec_contains_shape` packages for the rest of the library.
    fn contains_shape(&self, rhs: &Self) -> (r: bool)
        requires
            self.wf(),
            rhs.wf(),
        ensures
            r == (self.spec_area() >= rhs.spec_area()
                && self.spec_contains_point(rhs.spec_center())),
    ;
}

/// The approximate shape-containment relation: `a` contains `b` iff `a` has
/// at least `b`'s area and `b`'s representative point lies inside `a`.
///
/// This is a deliberate approximation: it can misclassify adversarial
/// shapes (for example, a thin concave `a` that does not truly enclose `b`
/// even though `b`'s representative point falls inside `a`), which is the
/// accepted trade-off for a constant-cost test.
pub open spec fn spec_contains_shape<T: Shape>(a: T, b: T) -> bool {
    a.spec_area() >= b.spec_area() && a.spec_contains_point(b.spec_center())
}

/// The index of the first shape of maximal area in a non-empty sequence.
pub open spec fn max_area_index<T: Shape>(s: Seq<T>) -> int
    decreases s.len(),
{
    if s.len() <= 1 {
        0
    } else {
        let m = max_area_index(s.drop_first());
        if s[0].spec_area() >= s.drop_first()[m].spec_area() {
            0
        } else {
            m + 1
        }
    }
}

/// `max_area_index` names a valid index of a maximal-area shape, and every
/// shape before it has strictly smaller area (ties go to the first).
pub proof fn lemma_max_area_index<T: Shape>(s: Seq<T>)
    requires
        s.len() > 0,
    ensures
        0 <= max_area_index(s) < s.len(),
        forall|k: int|
            0 <= k < s.len() ==> s[max_area_index(s)].spec_area() >= (#[trigger] s[
                k
            ]).spec_area(),
        forall|k: int|
            0 <= k < max_area_index(s) ==> (#[trigger] s[k]).spec_area() < s[max_area_index(
                s,
            )].spec_area(),
    decreases s.len(),
{
    if s.len() > 1 {
        lemma_max_area_index(s.drop_first());
        let m = max_area_index(s.drop_first());
        assert forall|k: int| 0 <= k < s.len() implies s[max_area_index(s)].spec_area() >= (
        #[trigger] s[k]).spec_area() by {
            if k > 0 {
                assert(s.drop_first()[k - 1] == s[k]);
                assert(s.drop_first()[m] == s[m + 1]);
            }
        }
        assert forall|k: int| 0 <= k < max_area_index(s) implies (#[trigger] s[
            k
        ]).spec_area() < s[max_area_index(s)].spec_area() by {
            if k > 0 {
                assert(s.drop_first()[k - 1] == s[k]);
            }
            assert(s.drop_first()[m] == s[m + 1]);
        }
    }
}

/// `max_area_index` is pinned down by its characteristic properties.
pub proof fn lemma_max_area_index_is<T: Shape>(s: Seq<T>, m: int)
    requires
        0 <= m < s.len(),
        forall|k: int| 0 <= k < s.len() ==> s[m].spec_area() >= (#[trigger] s[k]).spec_area(),
        forall|k: int| 0 <= k < m ==> (#[trigger] s[k]).spec_area() < s[m].spec_area(),
    ensures
        max_area_index(s) == m,
    decreases s.len(),
{
    if s.len() > 1 {
        lemma_max_area_index(s.drop_first());
        let mt = max_area_index(s.drop_first());
        assert(s.drop_first()[mt] == s[mt + 1]);
        if m == 0 {
            assert(s[0].spec_area() >= s.drop_first()[mt].spec_area());
        } else {
            assert(s.drop_first()[m - 1] == s[m]);
            assert(s.drop_first()[mt].spec_area() >= s[m].spec_area());
            assert(!(s[0].spec_area() >= s.drop_first()[mt].spec_area()));
            assert forall|k: int| 0 <= k < s.drop_first().len() implies s.drop_first()[m
                - 1].spec_area() >= (#[trigger] s.drop_first()[k]).spec_area() by {
                assert(s.drop_first()[k] == s[k + 1]);
            }
            assert forall|k: int| 0 <= k < m - 1 implies (#[trigger] s.drop_first()[
                k
            ]).spec_area() < s.drop_first()[m - 1].spec_area() by {
                assert(s.drop_first()[k] == s[k + 1]);
            }
            lemma_max_area_index_is(s.drop_first(), m - 1);
        }
    }
}

/// The stable selection order: repeatedly take the first remaining shape
/// of maximal area.  This is the documented deterministic tie-break rule:
/// shapes of equal area keep their input order.
pub open spec fn sort_by_area<T: Shape>(s: Seq<T>) -> Seq<T>
    decreases s.len(),
    via sort_by_area_decreases::<T>
{
    if s.len() == 0 {
        Seq::empty()
    } else {
        seq![s[max_area_index(s)]] + sort_by_area(s.remove(max_area_index(s)))
    }
}

#[via_fn]
proof fn sort_by_area_decreases<T: Shape>(s: Seq<T>) {
    if s.len() > 0 {
        lemma_max_area_index(s);
    }
}

/// The selection order is a permutation sorted by descending area, made of
/// the input's own shapes.
pub proof fn lemma_sort_by_area<T: Shape>(s: Seq<T>)
    ensures
        sort_by_area(s).len() == s.len(),
        sort_by_area(s).to_multiset() == s.to_multiset(),
        forall|i: int, j: int|
            0 <= i <= j < s.len() ==> sort_by_area(s)[i].spec_area() >= sort_by_area(
                s,
            )[j].spec_area(),
        forall|i: int| 0 <= i < s.len() ==> s.contains(#[trigger] sort_by_area(s)[i]),
    decreases s.len(),
{
    broadcast use vstd::seq_lib::group_to_multiset_ensures;

    if s.len() == 0 {
        assert(sort_by_area(s).to_multiset() =~= s.to_multiset());
    } else {
        lemma_max_area_index(s);
        let m = max_area_index(s);
        let rest = s.remove(m);
        lemma_sort_by_area(rest);
        let r = sort_by_area(s);
        assert(r == seq![s[m]] + sort_by_area(rest));
        vstd::seq_lib::lemma_multiset_commutative(seq![s[m]], sort_by_area(rest));
        assert(seq![s[m]].to_multiset() =~= Multiset::empty().insert(s[m])) by {
            assert(seq![s[m]] =~= Seq::empty().push(s[m]));
            assert(Seq::<T>::empty().to_multiset() =~= Multiset::empty());
        }
        assert(rest.to_multiset() == s.to_multiset().remove(s[m]));
        assert(s.to_multiset().count(s[m]) > 0) by {
            assert(s.contains(s[m]));
        }
        assert(r.to_multiset() =~= s.to_multiset());
        assert forall|i: int| 0 <= i < s.len() implies s.contains(#[trigger] r[i]) by {
            if i > 0 {
                assert(r[i] == sort_by_area(rest)[i - 1]);
                assert(rest.contains(r[i]));
                assert(rest.to_multiset().count(r[i]) > 0);
                assert(s.to_multiset().count(r[i]) > 0);
            }
        }
        assert forall|i: int, j: int| 0 <= i <= j < s.len() implies r[i].spec_area()
            >= r[j].spec_area() by {
            if i > 0 {
                assert(r[i] == sort_by_area(rest)[i - 1]);
                assert(r[j] == sort_by_area(rest)[j - 1]);
            } else if j > 0 {
                assert(r[j] == sort_by_area(rest)[j - 1]);
                assert(rest.contains(r[j]));
                let w = choose|w: int| 0 <= w < rest.len() && rest[w] == r[j];
                assert(rest[w] == if w < m {
                    s[w]
                } else {
                    s[w + 1]
                });
            }
        }
    }
}

/// Sorts the shapes by descending area, shapes of equal area keeping
/// their input order, as construction of the tree requires.
pub fn sort_shapes_by_area<T: Shape>(shapes: Vec<T>) -> (r: Vec<T>)
    requires
        forall|i: int| 0 <= i < shapes@.len() ==> (#[trigger] shapes@[i]).wf(),
    ensures
        r@ == sort_by_area(shapes@),
{
    let ghost all = shapes@;
    let mut src = shapes;
    let mut out: Vec<T> = Vec::new();
    proof {
        assert(out@ + sort_by_area(src@) =~= sort_by_area(all));
    }
    while src.len() > 0
        invariant
            forall|i: int| 0 <= i < src@.len() ==> (#[trigger] src@[i]).wf(),
            out@ + sort_by_area(src@) == sort_by_area(all),
        decreases src@.len(),
    {
        let ghost src0 = src@;
        let ghost out0 = out@;
        let n = src.len();
        let mut b: usize = 0;
        let mut best: u64 = src[0].area();
        let mut j: usize = 1;
        while j < n
            invariant
                n == src@.len(),
                forall|i: int| 0 <= i < src@.len() ==> (#[trigger] src@[i]).wf(),
                (b as int) < (j as int),
                j <= n,
                best as nat == src@[b as int].spec_area(),
                forall|k: int|
                    0 <= k < j as int ==> src@[b as int].spec_area() >= (#[trigger] src@[
                        k
                    ]).spec_area(),
                forall|k: int|
                    0 <= k < b as int ==> (#[trigger] src@[k]).spec_area() < src@[b
                        as int].spec_area(),
            decreases n - j,
        {
            let a = src[j].area();
            if a > best {
                b = j;
                best = a;
            }
            j += 1;
        }
        proof {
            lemma_max_area_index_is(src@, b as int);
        }
        let x = src.remove(b);
        out.push(x);
        proof {
            assert(sort_by_area(src0) == seq![src0[b as int]] + sort_by_area(
                src0.remove(b as int),
            ));
            assert(out@ =~= out0.push(x));
            assert(out@ + sort_by_area(src@) =~= out0 + sort_by_area(src0));
            assert forall|i: int| 0 <= i < src@.len() implies (#[trigger] src@[i]).wf() by {
                assert(src@[i] == if i < b as int {
                    src0[i]
                } else {
                    src0[i + 1]
                });
            }
        }
    }
    proof {
        assert(out@ + sort_by_area(src@) =~= out@);
    }
    out
}

} // verus!
