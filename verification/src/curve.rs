use vstd::prelude::*;
use vstd::arithmetic::power2::pow2;
use crate::elem::Elem;
use crate::elem::Triple;
use crate::elem::MAX_BITS;
use crate::elem::MAX_LIMBS;
use crate::group::GroupLaws;
use crate::group::multiple;

verus! {

/// Where a point operation reads its first operand and writes its result.
pub enum InOut<'a> {
    /// The operand is overwritten by the result.
    InPlace(&'a mut Triple),
    /// The result goes to `output`; `input` is left as it is.
    OutOfPlace { output: &'a mut Triple, input: &'a Triple },
}

/// The field and point arithmetic of one curve, as the scalar multiplication
/// needs it, together with the mathematics that it is held to.
///
/// A triple `(x, y, z)` that is `on_curve` stands for the group element
/// `point_of(x, y, z)`. The executable methods are the backend's primitives;
/// the proof methods are what an implementor has to show of them.
pub trait CurveOps: GroupLaws {
    /// The finished point that callers of the library receive.
    type Point;

    /// The order of the group.
    spec fn order(&self) -> nat;

    /// The bit length of the group order.
    spec fn spec_order_bits(&self) -> nat;

    /// The number of limbs of a field element that are in use.
    spec fn spec_num_limbs(&self) -> nat;

    /// The constant that takes a plain integer into the field's domain when
    /// multiplied with it.
    spec fn spec_rr(&self) -> Seq<u64>;

    /// Whether the addition formulas also take the point at infinity as an
    /// operand.
    spec fn complete(&self) -> bool;

    /// Whether `(x, y, z)` is a well-formed projective triple of this curve.
    spec fn on_curve(&self, x: Elem, y: Elem, z: Elem) -> bool;

    /// The group element that the triple `(x, y, z)` stands for.
    spec fn point_of(&self, x: Elem, y: Elem, z: Elem) -> Self::G;

    /// The group element that a finished point stands for.
    spec fn finished(&self, p: Self::Point) -> Self::G;

    /// The product of two field elements in the field's domain.
    spec fn spec_mul(&self, a: Elem, b: Elem) -> Elem;

    /// The additive inverse of a field element in the field's domain.
    spec fn spec_negate(&self, a: Elem) -> Elem;

    /// The field's multiplicative identity in the field's domain.
    spec fn spec_one(&self) -> Elem;

    /// The sizes fit the fixed-width buffers, and the order has at most
    /// `spec_order_bits()` bits.
    proof fn lemma_sizes(&self)
        requires
            self.wf(),
        ensures
            self.spec_rr().len() == MAX_LIMBS,
            1 <= self.spec_order_bits() <= MAX_BITS,
            1 <= self.spec_num_limbs() <= MAX_LIMBS,
            2 <= self.order() < pow2(self.spec_order_bits()),
    ;

    /// A triple on the curve stands for an element of the group.
    proof fn lemma_point_in_group(&self, x: Elem, y: Elem, z: Elem)
        requires
            self.wf(),
            self.on_curve(x, y, z),
        ensures
            self.contains(self.point_of(x, y, z)),
    ;

    /// The all-zero triple stands for the point at infinity.
    proof fn lemma_zero_triple(&self, x: Elem, y: Elem, z: Elem)
        requires
            self.wf(),
            x.is_zero(),
            y.is_zero(),
            z.is_zero(),
        ensures
            self.on_curve(x, y, z),
            self.point_of(x, y, z) == self.identity(),
    ;

    /// Negating `y` gives the inverse point.
    proof fn lemma_negated_point(&self, x: Elem, y: Elem, z: Elem)
        requires
            self.wf(),
            self.on_curve(x, y, z),
        ensures
            self.on_curve(x, self.spec_negate(y), z),
            self.point_of(x, self.spec_negate(y), z) == self.inverse(self.point_of(x, y, z)),
    ;

    /// The plain integer 1 times the conversion constant is the field's one
    /// in its domain.
    proof fn lemma_domain_one(&self, a: Elem, rr: Elem)
        requires
            self.wf(),
            a.limbs[0] == 1,
            forall|i: int| 1 <= i < MAX_LIMBS ==> a.limbs[i] == 0,
            forall|i: int| 0 <= i < self.spec_num_limbs() ==> rr.limbs[i] == self.spec_rr()[i],
            forall|i: int| self.spec_num_limbs() <= i < MAX_LIMBS ==> rr.limbs[i] == 0,
        ensures
            self.spec_mul(a, rr) == self.spec_one(),
    ;

    /// The order of the group annihilates every element.
    proof fn lemma_order(&self, g: Self::G)
        requires
            self.wf(),
            self.contains(g),
        ensures
            multiple(self, g, self.order() as int) == self.identity(),
    ;

    /// The group has prime order: no smaller positive multiple of an element
    /// other than the point at infinity is the point at infinity.
    proof fn lemma_prime_order(&self, g: Self::G, c: int)
        requires
            self.wf(),
            self.contains(g),
            g != self.identity(),
            0 < c < self.order(),
        ensures
            multiple(self, g, c) != self.identity(),
    ;

    /// The number of limbs of a field element that are in use.
    fn num_limbs(&self) -> (n: usize)
        requires
            self.wf(),
        ensures
            n == self.spec_num_limbs(),
    ;

    /// The bit length of the group order.
    fn order_bits(&self) -> (bits: usize)
        requires
            self.wf(),
        ensures
            bits == self.spec_order_bits(),
    ;

    /// The domain conversion constant.
    fn rr(&self) -> (r: [u64; MAX_LIMBS])
        requires
            self.wf(),
        ensures
            r@ == self.spec_rr(),
    ;

    /// Multiplies `a` by `b` in place.
    fn elem_mul(&self, a: &mut Elem, b: &Elem)
        requires
            self.wf(),
        ensures
            *final(a) == self.spec_mul(*old(a), *b),
    ;

    /// Negates `a` in place.
    fn elem_negate_vartime(&self, a: &mut Elem)
        requires
            self.wf(),
        ensures
            *final(a) == self.spec_negate(*old(a)),
    ;

    /// Doubles the point that `io` reads.
    fn point_double(&self, io: InOut<'_>)
        requires
            self.wf(),
            match io {
                InOut::InPlace(p) => self.on_curve(p[0], p[1], p[2]),
                InOut::OutOfPlace { output, input } => self.on_curve(input[0], input[1], input[2]),
            },
        ensures
            match io {
                InOut::InPlace(p) => {
                    let r = *final(p);
                    self.on_curve(r[0], r[1], r[2]) && self.point_of(r[0], r[1], r[2]) == self.op(
                        self.point_of(p[0], p[1], p[2]),
                        self.point_of(p[0], p[1], p[2]),
                    )
                },
                InOut::OutOfPlace { output, input } => {
                    let r = *final(output);
                    self.on_curve(r[0], r[1], r[2]) && self.point_of(r[0], r[1], r[2]) == self.op(
                        self.point_of(input[0], input[1], input[2]),
                        self.point_of(input[0], input[1], input[2]),
                    )
                },
            },
    ;

    /// Adds the point `(x, y, z)` to the point that `io` reads. Unless the
    /// formulas are complete, neither operand may be the point at infinity.
    fn points_add_vartime(&self, io: InOut<'_>, x: &Elem, y: &Elem, z: &Elem)
        requires
            self.wf(),
            self.on_curve(*x, *y, *z),
            match io {
                InOut::InPlace(p) => self.on_curve(p[0], p[1], p[2]) && (self.complete() || (
                self.point_of(p[0], p[1], p[2]) != self.identity() && self.point_of(*x, *y, *z)
                    != self.identity())),
                InOut::OutOfPlace { output, input } => self.on_curve(input[0], input[1], input[2])
                    && (self.complete() || (self.point_of(input[0], input[1], input[2])
                    != self.identity() && self.point_of(*x, *y, *z) != self.identity())),
            },
        ensures
            match io {
                InOut::InPlace(p) => {
                    let r = *final(p);
                    self.on_curve(r[0], r[1], r[2]) && self.point_of(r[0], r[1], r[2]) == self.op(
                        self.point_of(p[0], p[1], p[2]),
                        self.point_of(*x, *y, *z),
                    )
                },
                InOut::OutOfPlace { output, input } => {
                    let r = *final(output);
                    self.on_curve(r[0], r[1], r[2]) && self.point_of(r[0], r[1], r[2]) == self.op(
                        self.point_of(input[0], input[1], input[2]),
                        self.point_of(*x, *y, *z),
                    )
                },
            },
    ;

    /// Turns a triple into the finished point that stands for the same group
    /// element.
    fn new_point(&self, x: &Elem, y: &Elem, z: &Elem) -> (r: Self::Point)
        requires
            self.wf(),
            self.on_curve(*x, *y, *z),
        ensures
            self.finished(r) == self.point_of(*x, *y, *z),
    ;
}

/// Whether a whole triple is a well-formed point of the curve.
pub open spec fn valid<C: CurveOps>(ops: &C, p: Triple) -> bool {
    ops.on_curve(p[0], p[1], p[2])
}

/// The group element that a whole triple stands for.
pub open spec fn value<C: CurveOps>(ops: &C, p: Triple) -> C::G {
    ops.point_of(p[0], p[1], p[2])
}

} // verus!
