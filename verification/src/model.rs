use vstd::prelude::*;
use vstd::arithmetic::power2::pow2;
use vstd::arithmetic::power2::lemma_pow2_unfold;
use vstd::arithmetic::power2::lemma2_to64;
use vstd::arithmetic::div_mod::lemma_fundamental_div_mod;
use vstd::arithmetic::div_mod::lemma_small_mod;
use vstd::arithmetic::div_mod::lemma_mod_bound;
use vstd::arithmetic::div_mod::lemma_add_mod_noop;
use vstd::arithmetic::div_mod::lemma_mod_multiples_vanish;
use vstd::arithmetic::div_mod::lemma_mul_mod_noop_left;
use vstd::array::spec_array_fill_for_copy_type;
use vstd::array::spec_array_update;
use crate::elem::Elem;
use crate::elem::MAX_LIMBS;
use crate::elem::Triple;
use crate::curve::CurveOps;
use crate::curve::InOut;
use crate::group::GroupLaws;
use crate::group::multiple;

verus! {

/// A model backend: the additive group of the integers modulo an odd prime,
/// dressed as a curve.
///
/// A point is told by its `y` coordinate alone, which holds the residue that
/// the point stands for; `x` is carried along and never read; `z` is the
/// field's one for every point but the all-zero triple, which stands for the
/// residue zero, the point at infinity. Field elements live in a domain of
/// their own: the product of two elements is divided by two, so that the
/// field's one is held as the number two.
#[derive(Clone, Copy, Debug)]
pub struct ResidueCurve {
    modulus: u64,
    bits: usize,
    complete: bool,
}

/// A finished point of the model: the residue that it stands for.
#[derive(Clone, Copy, Debug, PartialEq, Eq)]
pub struct Residue(pub u64);

/// Whether `q` is a prime number.
pub open spec fn is_prime(q: int) -> bool {
    q >= 2 && forall|e: int| 2 <= e < q ==> #[trigger] (q % e) != 0
}

/// The element whose lowest limb is `v` and whose other limbs are zero.
pub open spec fn elem_of(v: u64) -> Elem {
    Elem { limbs: spec_array_update(spec_array_fill_for_copy_type::<u64, MAX_LIMBS>(0u64), 0, v) }
}

/// Whether only the lowest limb of `e` is in use.
pub open spec fn is_single_limb(e: Elem) -> bool {
    forall|i: int| 1 <= i < MAX_LIMBS ==> e.limbs[i] == 0
}

/// An element whose only limb in use is `v` is `elem_of(v)`.
pub proof fn lemma_elem_of(e: Elem, v: u64)
    requires
        e.limbs[0] == v,
        is_single_limb(e),
    ensures
        e == elem_of(v),
{
    broadcast use vstd::array::axiom_spec_array_update;
    broadcast use vstd::array::axiom_spec_array_fill_for_copy_type;
    broadcast use vstd::array::axiom_array_ext_equal;
    assert(e.limbs =~= elem_of(v).limbs);
}

/// The lowest limb of `elem_of(v)` is `v`, and the other limbs are zero.
pub proof fn lemma_elem_of_limbs(v: u64)
    ensures
        elem_of(v).limbs[0] == v,
        is_single_limb(elem_of(v)),
        v == 0 ==> elem_of(v).is_zero(),
{
    broadcast use vstd::array::axiom_spec_array_update;
    broadcast use vstd::array::axiom_spec_array_fill_for_copy_type;
}

/// Makes the element whose lowest limb is `v`.
pub fn make_elem(v: u64) -> (e: Elem)
    ensures
        e == elem_of(v),
{
    let mut e = Elem::zero();
    e.limbs[0] = v;
    proof {
        lemma_elem_of(e, v);
    }
    e
}

/// A prime has no zero divisors: the product of two numbers strictly between
/// zero and a prime `q` is no multiple of `q`.
pub proof fn lemma_no_zero_divisors(q: int, a: int, c: int)
    requires
        is_prime(q),
        0 < a < q,
        0 < c < q,
    ensures
        (a * c) % q != 0,
    decreases a,
{
    if (a * c) % q == 0 {
        if a == 1 {
            assert(a * c == c) by (nonlinear_arith)
                requires
                    a == 1,
            ;
            lemma_small_mod(c as nat, q as nat);
        } else {
            let r = q % a;
            let t = q / a;
            lemma_fundamental_div_mod(q, a);
            lemma_mod_bound(q, a);
            if r != 0 {
                let m = (a * c) / q;
                lemma_fundamental_div_mod(a * c, q);
                assert(r * c == (c - t * m) * q) by (nonlinear_arith)
                    requires
                        q == a * t + r,
                        a * c == q * m,
                ;
                vstd::arithmetic::div_mod::lemma_mod_multiples_basic(c - t * m, q);
                lemma_no_zero_divisors(q, r, c);
            }
        }
    }
}

/// Whether `q` is a prime number, by trial division up to its square root.
pub fn is_prime_number(q: u64) -> (b: bool)
    ensures
        b == is_prime(q as int),
{
    if q < 2 {
        return false;
    }
    let mut d: u64 = 2;
    while d <= q / d
        invariant
            2 <= d <= q,
            forall|e: int| 2 <= e < d ==> #[trigger] (q as int % e) != 0,
        decreases q - d,
    {
        proof {
            lemma_fundamental_div_mod(q as int, d as int);
        }
        if q % d == 0 {
            proof {
                assert(d < q) by (nonlinear_arith)
                    requires
                        d >= 2,
                        q / d >= d,
                        q == d * (q / d),
                ;
            }
            return false;
        }
        proof {
            assert(d + 1 <= q) by (nonlinear_arith)
                requires
                    d >= 2,
                    q / d >= d,
                    q == d * (q / d) + q % d,
                    q % d >= 0,
            ;
        }
        d += 1;
    }
    proof {
        let n = q as int;
        assert forall|e: int| 2 <= e < n implies #[trigger] (n % e) != 0 by {
            if e >= d && n % e == 0 {
                // the cofactor of a divisor from the square root up lies below it
                let c = n / e;
                lemma_fundamental_div_mod(n, e);
                lemma_fundamental_div_mod(n, d as int);
                lemma_mod_bound(n, d as int);
                assert(n < d * d) by (nonlinear_arith)
                    requires
                        n == d * (n / (d as int)) + n % (d as int),
                        n % (d as int) < d,
                        n / (d as int) < d,
                        d > 0,
                ;
                assert(2 <= c < d) by (nonlinear_arith)
                    requires
                        n == e * c,
                        n < d * d,
                        e >= d,
                        e < n,
                        d >= 2,
                ;
                assert(n == c * e + 0) by (nonlinear_arith)
                    requires
                        n == e * c,
                ;
                vstd::arithmetic::div_mod::lemma_fundamental_div_mod_converse(n, c, e, 0);
                assert(n % c == 0);
            }
        }
    }
    true
}

/// The number of bits of `q`: the least `bits` with `q < 2^bits`.
pub fn bit_length(q: u64) -> (bits: usize)
    requires
        q >= 1,
    ensures
        1 <= bits <= 64,
        pow2((bits - 1) as nat) <= q < pow2(bits as nat),
{
    let mut bits: usize = 1;
    let mut bound: u128 = 2;
    proof {
        lemma2_to64();
    }
    while bound <= q as u128
        invariant
            1 <= bits <= 64,
            bound == pow2(bits as nat),
            pow2((bits - 1) as nat) <= q,
            bits == 64 ==> bound > q,
        decreases 64 - bits,
    {
        proof {
            lemma2_to64();
            lemma_pow2_unfold(bits as nat + 1);
            if bits < 63 {
                vstd::arithmetic::power2::lemma_pow2_strictly_increases(bits as nat + 1, 64);
            }
        }
        bound = bound * 2;
        bits += 1;
    }
    bits
}

impl ResidueCurve {
    /// The modulus: the order of the group.
    pub closed spec fn spec_modulus(&self) -> int {
        self.modulus as int
    }

    /// The bit length that the context reports for its order.
    pub closed spec fn spec_bits(&self) -> nat {
        self.bits as nat
    }

    /// Whether the context declares its addition complete.
    pub closed spec fn spec_complete(&self) -> bool {
        self.complete
    }

    /// Half of the modulus plus one: the inverse of two.
    pub open spec fn half(&self) -> int {
        (self.spec_modulus() + 1) / 2
    }

    /// The model curve for the modulus `modulus`, where that is an odd
    /// prime. With `complete` false the context declares that its addition
    /// does not take the point at infinity, as the formulas of a real curve
    /// may not.
    pub fn new(modulus: u64, complete: bool) -> (r: Option<Self>)
        ensures
            r is Some <==> is_prime(modulus as int) && modulus >= 3,
            r matches Some(c) ==> c.wf() && c.spec_modulus() == modulus && c.spec_complete()
                == complete && pow2((c.spec_bits() - 1) as nat) <= modulus,
    {
        if modulus < 3 || !is_prime_number(modulus) {
            return None;
        }
        let bits = bit_length(modulus);
        Some(ResidueCurve { modulus, bits, complete })
    }

    /// The modulus: the order of the group.
    pub fn modulus(&self) -> (q: u64)
        ensures
            q == self.spec_modulus(),
    {
        self.modulus
    }

    /// The affine point that stands for the residue of `t`.
    pub fn affine(&self, t: u64) -> (p: (Elem, Elem))
        requires
            self.wf(),
        ensures
            p.0.is_zero(),
            p.1 == elem_of((t as int % self.spec_modulus()) as u64),
            self.on_curve(p.0, p.1, self.spec_one()),
            self.point_of(p.0, p.1, self.spec_one()) == t as int % self.spec_modulus(),
    {
        let y = make_elem(t % self.modulus);
        proof {
            lemma_elem_of_limbs((t % self.modulus) as u64);
        }
        (Elem::zero(), y)
    }

    /// The residue that a triple on the curve stands for.
    pub fn residue(&self, p: &Triple) -> (t: u64)
        requires
            self.wf(),
            self.on_curve(p[0], p[1], p[2]),
        ensures
            t == self.point_of(p[0], p[1], p[2]),
    {
        p[1].limbs[0]
    }

    /// The sum of the points `a` and `(x, y, z)`.
    fn sum(&self, a: &Triple, x: &Elem, y: &Elem, z: &Elem) -> (r: Triple)
        requires
            self.wf(),
            self.on_curve(a[0], a[1], a[2]),
            self.on_curve(*x, *y, *z),
        ensures
            self.on_curve(r[0], r[1], r[2]),
            self.point_of(r[0], r[1], r[2]) == self.op(
                self.point_of(a[0], a[1], a[2]),
                self.point_of(*x, *y, *z),
            ),
    {
        let t: u128 = (a[1].limbs[0] as u128 + y.limbs[0] as u128) % (self.modulus as u128);
        let one = make_elem(2);
        let r = [a[0], make_elem(t as u64), one];
        proof {
            lemma_elem_of_limbs(t as u64);
            lemma_small_mod(2, self.modulus as nat);
        }
        r
    }
}

impl GroupLaws for ResidueCurve {
    type G = int;

    open spec fn wf(&self) -> bool {
        &&& is_prime(self.spec_modulus())
        &&& self.spec_modulus() >= 3
        &&& 1 <= self.spec_bits() <= 64
        &&& self.spec_modulus() < pow2(self.spec_bits())
    }

    open spec fn contains(&self, a: int) -> bool {
        0 <= a < self.spec_modulus()
    }

    open spec fn identity(&self) -> int {
        0
    }

    open spec fn op(&self, a: int, b: int) -> int {
        (a + b) % self.spec_modulus()
    }

    open spec fn inverse(&self, a: int) -> int {
        (self.spec_modulus() - a) % self.spec_modulus()
    }

    proof fn lemma_identity_in_group(&self) {
    }

    proof fn lemma_closed(&self, a: int, b: int) {
        lemma_mod_bound(a + b, self.spec_modulus());
        lemma_mod_bound(self.spec_modulus() - a, self.spec_modulus());
    }

    proof fn lemma_assoc(&self, a: int, b: int, c: int) {
        let q = self.spec_modulus();
        lemma_add_mod_noop(a + b, c, q);
        lemma_add_mod_noop(a, b + c, q);
        lemma_small_mod(a as nat, q as nat);
        lemma_small_mod(c as nat, q as nat);
    }

    proof fn lemma_comm(&self, a: int, b: int) {
    }

    proof fn lemma_identity(&self, a: int) {
        lemma_small_mod(a as nat, self.spec_modulus() as nat);
    }

    proof fn lemma_inverse(&self, a: int) {
        let q = self.spec_modulus();
        if a == 0 {
            vstd::arithmetic::div_mod::lemma_mod_self_0(q);
            lemma_small_mod(0, q as nat);
        } else {
            lemma_small_mod((q - a) as nat, q as nat);
            vstd::arithmetic::div_mod::lemma_mod_self_0(q);
        }
    }
}

/// In the model, the `k`-fold multiple of the residue `g` is the residue of
/// `k * g`.
pub proof fn lemma_model_multiple(ops: &ResidueCurve, g: int, k: int)
    requires
        ops.wf(),
        ops.contains(g),
    ensures
        multiple(ops, g, k) == (k * g) % ops.spec_modulus(),
    decreases (if k >= 0 { k } else { -k }), (if k < 0 { 1int } else { 0int }),
{
    let q = ops.spec_modulus();
    if k == 0 {
        assert(k * g == 0) by (nonlinear_arith)
            requires
                k == 0,
        ;
        lemma_small_mod(0, q as nat);
    } else if k > 0 {
        lemma_model_multiple(ops, g, k - 1);
        lemma_add_mod_noop((k - 1) * g, g, q);
        lemma_small_mod(g as nat, q as nat);
        vstd::arithmetic::div_mod::lemma_mod_twice((k - 1) * g, q);
        assert((k - 1) * g + g == k * g) by (nonlinear_arith);
    } else {
        lemma_model_multiple(ops, g, -k);
        let x = (-k) * g;
        let t = x / q;
        let r = x % q;
        lemma_fundamental_div_mod(x, q);
        lemma_mod_bound(x, q);
        assert(k * g == -x) by (nonlinear_arith)
            requires
                x == (-k) * g,
        ;
        if r == 0 {
            vstd::arithmetic::div_mod::lemma_mod_self_0(q);
            assert(-x == q * (-t) + 0) by (nonlinear_arith)
                requires
                    x == q * t + r,
                    r == 0,
            ;
            vstd::arithmetic::div_mod::lemma_fundamental_div_mod_converse(-x, q, -t, 0);
        } else {
            lemma_small_mod((q - r) as nat, q as nat);
            assert(-x == q * (-t - 1) + (q - r)) by (nonlinear_arith)
                requires
                    x == q * t + r,
            ;
            vstd::arithmetic::div_mod::lemma_fundamental_div_mod_converse(-x, q, -t - 1, q - r);
        }
    }
}

impl CurveOps for ResidueCurve {
    type Point = Residue;

    open spec fn order(&self) -> nat {
        self.spec_modulus() as nat
    }

    open spec fn spec_order_bits(&self) -> nat {
        self.spec_bits()
    }

    open spec fn spec_num_limbs(&self) -> nat {
        1
    }

    open spec fn spec_rr(&self) -> Seq<u64> {
        seq![(4int % self.spec_modulus()) as u64, 0u64, 0u64, 0u64, 0u64, 0u64]
    }

    open spec fn complete(&self) -> bool {
        self.spec_complete()
    }

    open spec fn on_curve(&self, x: Elem, y: Elem, z: Elem) -> bool {
        &&& is_single_limb(y)
        &&& y.limbs[0] < self.spec_modulus()
        &&& (z == self.spec_one() || (x.is_zero() && y.is_zero() && z.is_zero()))
    }

    open spec fn point_of(&self, x: Elem, y: Elem, z: Elem) -> int {
        y.limbs[0] as int
    }

    open spec fn finished(&self, p: Residue) -> int {
        p.0 as int
    }

    open spec fn spec_mul(&self, a: Elem, b: Elem) -> Elem {
        let q = self.spec_modulus();
        elem_of((((((a.limbs[0] as int % q) * (b.limbs[0] as int % q)) % q) * self.half()) % q) as u64)
    }

    open spec fn spec_negate(&self, a: Elem) -> Elem {
        let q = self.spec_modulus();
        elem_of(((q - a.limbs[0] as int % q) % q) as u64)
    }

    open spec fn spec_one(&self) -> Elem {
        elem_of(2)
    }

    proof fn lemma_sizes(&self) {
        lemma2_to64();
        if self.spec_bits() < 64 {
            vstd::arithmetic::power2::lemma_pow2_strictly_increases(self.spec_bits(), 64);
        }
    }

    proof fn lemma_point_in_group(&self, x: Elem, y: Elem, z: Elem) {
    }

    proof fn lemma_zero_triple(&self, x: Elem, y: Elem, z: Elem) {
    }

    proof fn lemma_negated_point(&self, x: Elem, y: Elem, z: Elem) {
        let q = self.spec_modulus();
        let v = ((q - y.limbs[0] as int % q) % q) as u64;
        lemma_small_mod(y.limbs[0] as nat, q as nat);
        lemma_mod_bound(q - y.limbs[0] as int, q);
        lemma_elem_of_limbs(v);
        if y.limbs[0] == 0 {
            vstd::arithmetic::div_mod::lemma_mod_self_0(q);
        }
    }

    proof fn lemma_domain_one(&self, a: Elem, rr: Elem) {
        let q = self.spec_modulus();
        let h = self.half();
        let c = 4int % q;
        lemma_small_mod(1, q as nat);
        lemma_mod_bound(4, q);
        vstd::arithmetic::div_mod::lemma_mod_twice(4, q);
        assert(a.limbs[0] as int % q == 1);
        assert(rr.limbs[0] == self.spec_rr()[0]);
        assert(rr.limbs[0] as int == c);
        assert((1 * c) % q == c);
        lemma_mul_mod_noop_left(4, h, q);
        assert(4 * h == q * 2 + 2) by (nonlinear_arith)
            requires
                h == (q + 1) / 2,
                q % 2 == 1,
        ;
        lemma_mod_multiples_vanish(2, 2, q);
        lemma_small_mod(2, q as nat);
        assert((c * h) % q == 2);
    }

    proof fn lemma_order(&self, g: int) {
        let q = self.spec_modulus();
        lemma_model_multiple(self, g, q);
        vstd::arithmetic::div_mod::lemma_mod_multiples_basic(g, q);
        assert(q * g == g * q) by (nonlinear_arith);
    }

    proof fn lemma_prime_order(&self, g: int, c: int) {
        lemma_model_multiple(self, g, c);
        lemma_no_zero_divisors(self.spec_modulus(), c, g);
    }

    fn num_limbs(&self) -> (n: usize) {
        1
    }

    fn order_bits(&self) -> (bits: usize) {
        self.bits
    }

    fn rr(&self) -> (r: [u64; MAX_LIMBS]) {
        let r = [4 % self.modulus, 0, 0, 0, 0, 0];
        assert(r@ =~= self.spec_rr());
        r
    }

    fn elem_mul(&self, a: &mut Elem, b: &Elem) {
        let q: u128 = self.modulus as u128;
        let half: u128 = (q + 1) / 2;
        let left: u128 = a.limbs[0] as u128 % q;
        let right: u128 = b.limbs[0] as u128 % q;
        proof {
            assert(left * right <= 0xffff_ffff_ffff_ffff * 0xffff_ffff_ffff_ffff) by (nonlinear_arith)
                requires
                    left <= 0xffff_ffff_ffff_ffff,
                    right <= 0xffff_ffff_ffff_ffff,
            ;
        }
        let product: u128 = (left * right) % q;
        proof {
            assert(product * half <= 0xffff_ffff_ffff_ffff * 0xffff_ffff_ffff_ffff) by (nonlinear_arith)
                requires
                    product <= 0xffff_ffff_ffff_ffff,
                    half <= 0xffff_ffff_ffff_ffff,
            ;
        }
        let halved: u128 = (product * half) % q;
        *a = make_elem(halved as u64);
    }

    fn elem_negate_vartime(&self, a: &mut Elem) {
        let q = self.modulus;
        let v = (q - a.limbs[0] % q) % q;
        *a = make_elem(v);
    }

    fn point_double(&self, io: InOut<'_>) {
        match io {
            InOut::InPlace(p) => {
                let r = self.sum(p, &p[0], &p[1], &p[2]);
                *p = r;
            },
            InOut::OutOfPlace { output, input } => {
                *output = self.sum(input, &input[0], &input[1], &input[2]);
            },
        }
    }

    fn points_add_vartime(&self, io: InOut<'_>, x: &Elem, y: &Elem, z: &Elem) {
        match io {
            InOut::InPlace(p) => {
                let r = self.sum(p, x, y, z);
                *p = r;
            },
            InOut::OutOfPlace { output, input } => {
                *output = self.sum(input, x, y, z);
            },
        }
    }

    fn new_point(&self, x: &Elem, y: &Elem, z: &Elem) -> (r: Residue) {
        Residue(y.limbs[0])
    }
}

} // verus!
