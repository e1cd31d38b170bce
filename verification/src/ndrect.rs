//! Rectangles of the infinite grid, given by two opposite corners that both
//! belong to them.

use crate::axis::Axis;
use crate::big::BigNum;
use crate::ndvec::BigVec;
use vstd::prelude::*;

verus! {

/// `p` lies between `min` and `max` along every axis, both included.
pub open spec fn between(min: Seq<int>, max: Seq<int>, p: Seq<int>) -> bool {
    &&& p.len() == min.len()
    &&& forall|k: int| 0 <= k < min.len() ==> min[k] <= #[trigger] p[k] <= max[k]
}

/// An axis-aligned rectangle with its lowest and its highest corner.
#[derive(Debug)]
pub struct BigRect<const D: usize> {
    /// The lowest corner.
    pub min: BigVec<D>,
    /// The highest corner.
    pub max: BigVec<D>,
}

impl<const D: usize> BigRect<D> {
    /// Both corners have `D` coordinates, and none of `min` exceeds that
    /// of `max`.
    pub open spec fn wf(&self) -> bool {
        &&& self.min.wf()
        &&& self.max.wf()
        &&& forall|k: int| 0 <= k < D ==> #[trigger] self.min@[k] <= self.max@[k]
    }

    /// The point `p` lies in the rectangle.
    pub open spec fn contains(&self, p: Seq<int>) -> bool {
        between(self.min@, self.max@, p)
    }

    /// The rectangle between two points, which may be any two opposite
    /// corners of it.
    pub fn span(a: &BigVec<D>, b: &BigVec<D>) -> (r: Self)
        requires
            a.wf(),
            b.wf(),
        ensures
            r.wf(),
            forall|k: int|
                0 <= k < D ==> #[trigger] r.min@[k] == (if a@[k] <= b@[k] {
                    a@[k]
                } else {
                    b@[k]
                }),
            forall|k: int|
                0 <= k < D ==> #[trigger] r.max@[k] == (if a@[k] <= b@[k] {
                    b@[k]
                } else {
                    a@[k]
                }),
    {
        let mut low: Vec<BigNum> = Vec::new();
        let mut high: Vec<BigNum> = Vec::new();
        let mut k: usize = 0;
        while k < D
            invariant
                a.wf(),
                b.wf(),
                k <= D,
                low@.len() == k,
                high@.len() == k,
                forall|j: int|
                    0 <= j < k ==> (#[trigger] low@[j])@ == (if a@[j] <= b@[j] {
                        a@[j]
                    } else {
                        b@[j]
                    }),
                forall|j: int|
                    0 <= j < k ==> (#[trigger] high@[j])@ == (if a@[j] <= b@[j] {
                        b@[j]
                    } else {
                        a@[j]
                    }),
            decreases D - k,
        {
            if a.coords[k].le(&b.coords[k]) {
                low.push(a.coords[k].copy());
                high.push(b.coords[k].copy());
            } else {
                low.push(b.coords[k].copy());
                high.push(a.coords[k].copy());
            }
            k += 1;
        }
        BigRect { min: BigVec { coords: low }, max: BigVec { coords: high } }
    }

    /// Whether `pos` lies in the rectangle.
    pub fn contains_pos(&self, pos: &BigVec<D>) -> (r: bool)
        requires
            self.wf(),
            pos.wf(),
        ensures
            r == self.contains(pos@),
    {
        let mut k: usize = 0;
        while k < D
            invariant
                self.wf(),
                pos.wf(),
                k <= D,
                forall|j: int| 0 <= j < k ==> self.min@[j] <= #[trigger] pos@[j] <= self.max@[j],
            decreases D - k,
        {
            if pos.coords[k].lt(&self.min.coords[k]) || self.max.coords[k].lt(&pos.coords[k]) {
                assert(!(self.min@[k as int] <= pos@[k as int] <= self.max@[k as int]));
                return false;
            }
            k += 1;
        }
        true
    }

    /// The number of cells along `axis`.
    pub fn len(&self, axis: Axis) -> (n: BigNum)
        requires
            self.wf(),
            axis.index_of() < D,
        ensures
            n@ == self.max@[axis.index_of() as int] - self.min@[axis.index_of() as int] + 1,
    {
        let one = BigNum::from_i64(1);
        let k = axis.index();
        self.max.coords[k].sub(&self.min.coords[k]).add(&one)
    }

    /// The rectangle of the points that lie in both rectangles, if there
    /// is any.
    pub fn intersection(&self, other: &Self) -> (r: Option<Self>)
        requires
            self.wf(),
            other.wf(),
        ensures
            match r {
                Some(both) => both.wf() && forall|p: Seq<int>| #[trigger]
                    both.contains(p) <==> self.contains(p) && other.contains(p),
                None => forall|p: Seq<int>| !(#[trigger] self.contains(p) && other.contains(p)),
            },
    {
        let mut low: Vec<BigNum> = Vec::new();
        let mut high: Vec<BigNum> = Vec::new();
        let mut k: usize = 0;
        while k < D
            invariant
                self.wf(),
                other.wf(),
                k <= D,
                low@.len() == k,
                high@.len() == k,
                forall|j: int|
                    0 <= j < k ==> (#[trigger] low@[j])@ == (if self.min@[j] >= other.min@[j] {
                        self.min@[j]
                    } else {
                        other.min@[j]
                    }),
                forall|j: int|
                    0 <= j < k ==> (#[trigger] high@[j])@ == (if self.max@[j] <= other.max@[j] {
                        self.max@[j]
                    } else {
                        other.max@[j]
                    }),
                forall|j: int| 0 <= j < k ==> (#[trigger] low@[j])@ <= high@[j]@,
            decreases D - k,
        {
            let lo = if other.min.coords[k].le(&self.min.coords[k]) {
                self.min.coords[k].copy()
            } else {
                other.min.coords[k].copy()
            };
            let hi = if self.max.coords[k].le(&other.max.coords[k]) {
                self.max.coords[k].copy()
            } else {
                other.max.coords[k].copy()
            };
            if hi.lt(&lo) {
                proof {
                    assert forall|p: Seq<int>| !(#[trigger] self.contains(p) && other.contains(
                        p,
                    )) by {
                        if self.contains(p) && other.contains(p) {
                            assert(self.min@[k as int] <= p[k as int] <= self.max@[k as int]);
                            assert(other.min@[k as int] <= p[k as int] <= other.max@[k as int]);
                        }
                    }
                }
                return None;
            }
            low.push(lo);
            high.push(hi);
            k += 1;
        }
        let both = BigRect { min: BigVec { coords: low }, max: BigVec { coords: high } };
        proof {
            assert forall|p: Seq<int>| #[trigger]
                both.contains(p) <==> self.contains(p) && other.contains(p) by {
                if both.contains(p) {
                    assert forall|j: int| 0 <= j < D implies self.min@[j] <= #[trigger] p[j]
                        <= self.max@[j] && other.min@[j] <= p[j] <= other.max@[j] by {
                        assert(both.min@[j] <= p[j] <= both.max@[j]);
                    }
                }
                if self.contains(p) && other.contains(p) {
                    assert forall|j: int| 0 <= j < D implies both.min@[j] <= #[trigger] p[j]
                        <= both.max@[j] by {
                        assert(self.min@[j] <= p[j] <= self.max@[j]);
                        assert(other.min@[j] <= p[j] <= other.max@[j]);
                    }
                }
            }
        }
        Some(both)
    }
}

} // verus!
