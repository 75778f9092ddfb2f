use vstd::prelude::*;
use vstd::arithmetic::power2::pow2;

verus! {

/// Number of 64-bit limbs in a field element or a scalar.
pub const MAX_LIMBS: usize = 6;

/// Largest bit length of a group order that the fixed-width buffers hold.
pub const MAX_BITS: usize = 384;

/// A field element: a fixed-width unsigned integer, least-significant limb
/// first, held in whatever domain the curve backend works in. This library
/// never reads its value; it copies elements and hands them to the backend.
#[derive(Clone, Copy, Debug, PartialEq, Eq)]
pub struct Elem {
    pub limbs: [u64; MAX_LIMBS],
}

/// A point as a projective triple `(X, Y, Z)`.
pub type Triple = [Elem; 3];

/// A scalar: a fixed-width unsigned integer, least-significant limb first.
#[derive(Clone, Copy, Debug, PartialEq, Eq)]
pub struct Scalar {
    pub limbs: [u64; MAX_LIMBS],
}

/// The number that a sequence of limbs stands for, least-significant first.
pub open spec fn limbs_value(limbs: Seq<u64>) -> nat
    decreases limbs.len(),
{
    if limbs.len() == 0 {
        0
    } else {
        limbs[0] as nat + pow2(64) * limbs_value(limbs.drop_first())
    }
}

/// Whether all three coordinates of a triple are zero.
pub open spec fn is_zero_triple(p: Triple) -> bool {
    p[0].is_zero() && p[1].is_zero() && p[2].is_zero()
}

impl Elem {
    /// Whether every limb is zero.
    pub open spec fn is_zero(self) -> bool {
        forall|i: int| 0 <= i < MAX_LIMBS ==> self.limbs[i] == 0
    }

    /// The element all of whose limbs are zero.
    pub fn zero() -> (r: Elem)
        ensures
            r.is_zero(),
    {
        Elem { limbs: [0u64; MAX_LIMBS] }
    }
}

impl Scalar {
    /// The number that the scalar stands for.
    pub open spec fn value(self) -> nat {
        limbs_value(self.limbs@)
    }
}

} // verus!
