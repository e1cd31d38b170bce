//! Points of the infinite grid: vectors of `D` integers of any size.

use crate::big::BigNum;
use vstd::prelude::*;

verus! {

/// A point with `D` coordinates of any size.
#[derive(Debug)]
pub struct BigVec<const D: usize> {
    /// The coordinates, axis 0 first.
    pub coords: Vec<BigNum>,
}

impl<const D: usize> View for BigVec<D> {
    type V = Seq<int>;

    open spec fn view(&self) -> Seq<int> {
        Seq::new(self.coords@.len(), |k: int| self.coords@[k]@)
    }
}

impl<const D: usize> BigVec<D> {
    /// The vector has `D` coordinates.
    pub open spec fn wf(&self) -> bool {
        self.coords@.len() == D
    }

    /// The point whose coordinates all equal `value`.
    pub fn repeat(value: &BigNum) -> (r: Self)
        ensures
            r.wf(),
            forall|k: int| 0 <= k < D ==> r@[k] == value@,
    {
        let mut coords: Vec<BigNum> = Vec::new();
        let mut k: usize = 0;
        while k < D
            invariant
                k <= D,
                coords@.len() == k,
                forall|j: int| 0 <= j < k ==> (#[trigger] coords@[j])@ == value@,
            decreases D - k,
        {
            coords.push(value.copy());
            k += 1;
        }
        BigVec { coords }
    }

    /// The origin.
    pub fn origin() -> (r: Self)
        ensures
            r.wf(),
            forall|k: int| 0 <= k < D ==> r@[k] == 0,
    {
        let zero = BigNum::zero();
        Self::repeat(&zero)
    }

    /// The point with the given machine-integer coordinates.
    pub fn from_i64(coords: [i64; D]) -> (r: Self)
        ensures
            r.wf(),
            forall|k: int| 0 <= k < D ==> r@[k] == coords@[k],
    {
        let mut out: Vec<BigNum> = Vec::new();
        let mut k: usize = 0;
        while k < D
            invariant
                k <= D,
                out@.len() == k,
                forall|j: int| 0 <= j < k ==> (#[trigger] out@[j])@ == coords@[j],
            decreases D - k,
        {
            out.push(BigNum::from_i64(coords[k]));
            k += 1;
        }
        BigVec { coords: out }
    }

    /// The coordinates as machine integers, where every one of them fits.
    pub fn to_i64(&self) -> (r: Option<Vec<i64>>)
        requires
            self.wf(),
        ensures
            r matches Some(v) ==> v@.len() == D && forall|k: int|
                0 <= k < D ==> (#[trigger] v@[k]) as int == self@[k],
            r is None <==> exists|k: int|
                0 <= k < D && !(i64::MIN <= #[trigger] self@[k] <= i64::MAX),
    {
        let mut out: Vec<i64> = Vec::new();
        let mut k: usize = 0;
        while k < D
            invariant
                self.wf(),
                k <= D,
                out@.len() == k,
                forall|j: int| 0 <= j < k ==> (#[trigger] out@[j]) as int == self@[j],
                forall|j: int| 0 <= j < k ==> i64::MIN <= #[trigger] self@[j] <= i64::MAX,
            decreases D - k,
        {
            match self.coords[k].to_i64() {
                Some(v) => {
                    out.push(v);
                },
                None => {
                    assert(!(i64::MIN <= self@[k as int] <= i64::MAX));
                    return None;
                },
            }
            k += 1;
        }
        Some(out)
    }

    /// A copy of the point.
    pub fn copy(&self) -> (r: Self)
        requires
            self.wf(),
        ensures
            r.wf(),
            r@ == self@,
    {
        let mut coords: Vec<BigNum> = Vec::new();
        let mut k: usize = 0;
        while k < D
            invariant
                self.wf(),
                k <= D,
                coords@.len() == k,
                forall|j: int| 0 <= j < k ==> (#[trigger] coords@[j])@ == self@[j],
            decreases D - k,
        {
            coords.push(self.coords[k].copy());
            k += 1;
        }
        let r = BigVec { coords };
        assert(r@ =~= self@);
        r
    }

    /// The sum of two points.
    pub fn add(&self, other: &Self) -> (r: Self)
        requires
            self.wf(),
            other.wf(),
        ensures
            r.wf(),
            forall|k: int| 0 <= k < D ==> r@[k] == self@[k] + other@[k],
    {
        let mut coords: Vec<BigNum> = Vec::new();
        let mut k: usize = 0;
        while k < D
            invariant
                self.wf(),
                other.wf(),
                k <= D,
                coords@.len() == k,
                forall|j: int| 0 <= j < k ==> (#[trigger] coords@[j])@ == self@[j] + other@[j],
            decreases D - k,
        {
            coords.push(self.coords[k].add(&other.coords[k]));
            k += 1;
        }
        BigVec { coords }
    }

    /// The difference of two points.
    pub fn sub(&self, other: &Self) -> (r: Self)
        requires
            self.wf(),
            other.wf(),
        ensures
            r.wf(),
            forall|k: int| 0 <= k < D ==> r@[k] == self@[k] - other@[k],
    {
        let mut coords: Vec<BigNum> = Vec::new();
        let mut k: usize = 0;
        while k < D
            invariant
                self.wf(),
                other.wf(),
                k <= D,
                coords@.len() == k,
                forall|j: int| 0 <= j < k ==> (#[trigger] coords@[j])@ == self@[j] - other@[j],
            decreases D - k,
        {
            coords.push(self.coords[k].sub(&other.coords[k]));
            k += 1;
        }
        BigVec { coords }
    }

    /// The point moved by `delta` along every axis.
    pub fn add_scalar(&self, delta: &BigNum) -> (r: Self)
        requires
            self.wf(),
        ensures
            r.wf(),
            forall|k: int| 0 <= k < D ==> r@[k] == self@[k] + delta@,
    {
        let mut coords: Vec<BigNum> = Vec::new();
        let mut k: usize = 0;
        while k < D
            invariant
                self.wf(),
                k <= D,
                coords@.len() == k,
                forall|j: int| 0 <= j < k ==> (#[trigger] coords@[j])@ == self@[j] + delta@,
            decreases D - k,
        {
            coords.push(self.coords[k].add(delta));
            k += 1;
        }
        BigVec { coords }
    }

    /// The point moved back by `delta` along every axis.
    pub fn sub_scalar(&self, delta: &BigNum) -> (r: Self)
        requires
            self.wf(),
        ensures
            r.wf(),
            forall|k: int| 0 <= k < D ==> r@[k] == self@[k] - delta@,
    {
        let mut coords: Vec<BigNum> = Vec::new();
        let mut k: usize = 0;
        while k < D
            invariant
                self.wf(),
                k <= D,
                coords@.len() == k,
                forall|j: int| 0 <= j < k ==> (#[trigger] coords@[j])@ == self@[j] - delta@,
            decreases D - k,
        {
            coords.push(self.coords[k].sub(delta));
            k += 1;
        }
        BigVec { coords }
    }

    /// Whether every coordinate lies in `0..2^layer`.
    pub fn in_cube(&self, layer: usize) -> (r: bool)
        requires
            self.wf(),
        ensures
            r == crate::index::in_cube(self@, D as nat, vstd::arithmetic::power2::pow2(layer as nat) as int),
    {
        let zero = BigNum::zero();
        let side = BigNum::pow2(layer);
        let mut k: usize = 0;
        while k < D
            invariant
                self.wf(),
                k <= D,
                zero@ == 0,
                side@ == vstd::arithmetic::power2::pow2(layer as nat),
                forall|j: int| 0 <= j < k ==> 0 <= #[trigger] self@[j] < side@,
            decreases D - k,
        {
            if self.coords[k].lt(&zero) || !self.coords[k].lt(&side) {
                assert(!(0 <= self@[k as int] < side@));
                return false;
            }
            k += 1;
        }
        true
    }
}

} // verus!
