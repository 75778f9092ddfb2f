use vstd::prelude::*;
use vstd::arithmetic::power2::pow2;
use crate::elem::Elem;
use crate::elem::MAX_LIMBS;
use crate::elem::Scalar;
use crate::elem::Triple;
use crate::elem::is_zero_triple;
use crate::group::GroupLaws;
use crate::group::multiple;
use crate::group::lemma_multiple_add;
use crate::group::lemma_multiple_closed;
use crate::group::lemma_multiple_neg;
use crate::group::lemma_multiple_two;
use crate::group::lemma_multiple_of_multiple;
use crate::group::lemma_inverse_not_identity;
use crate::wnaf::recode_wnaf;
use crate::wnaf::wnaf;
use crate::wnaf::wnaf_rest;
use crate::wnaf::lemma_digit;
use crate::wnaf::lemma_rest_step;
use crate::wnaf::lemma_rest_ends;
use crate::wnaf::lemma_rest_below;
use crate::curve::CurveOps;
use crate::curve::InOut;
use crate::curve::valid;
use crate::curve::value;

verus! {

/// An accumulator that is either the point at infinity or a triple.
pub struct PointVartime<'a, C: CurveOps> {
    pub ops: &'a C,
    /// `None` is the point at infinity.
    pub value: Option<Triple>,
}

impl<'a, C: CurveOps> PointVartime<'a, C> {
    /// The backend is well formed and the triple, if there is one, is on the curve.
    pub open spec fn wf(&self) -> bool {
        &&& self.ops.wf()
        &&& self.value matches Some(p) ==> valid(self.ops, p)
    }

    /// The group element that the accumulator stands for.
    pub open spec fn point(&self) -> C::G {
        match self.value {
            Some(p) => value(self.ops, p),
            None => self.ops.identity(),
        }
    }

    /// A new accumulator at the point at infinity.
    pub fn new_at_infinity(ops: &'a C) -> (r: Self)
        ensures
            r.ops == ops,
            r.value is None,
    {
        Self { ops, value: None }
    }

    /// Doubles the accumulator. The point at infinity stays as it is.
    pub fn double_assign(&mut self)
        requires
            old(self).wf(),
        ensures
            final(self).wf(),
            final(self).ops == old(self).ops,
            old(self).value is None ==> final(self).value is None,
            old(self).value is Some ==> final(self).value is Some,
            final(self).point() == old(self).ops.op(old(self).point(), old(self).point()),
    {
        proof {
            self.ops.lemma_identity_in_group();
            self.ops.lemma_identity(self.ops.identity());
        }
        if let Some(p) = &mut self.value {
            self.ops.point_double(InOut::InPlace(p));
        }
    }

    /// Adds `(x, y, z)` to the accumulator. At the point at infinity the
    /// accumulator becomes exactly this triple.
    pub fn add_assign(&mut self, x: &Elem, y: &Elem, z: &Elem)
        requires
            old(self).wf(),
            old(self).ops.on_curve(*x, *y, *z),
            old(self).value is Some ==> old(self).ops.complete() || (old(self).point() != old(
                self,
            ).ops.identity() && old(self).ops.point_of(*x, *y, *z) != old(self).ops.identity()),
        ensures
            final(self).wf(),
            final(self).ops == old(self).ops,
            final(self).value is Some,
            old(self).value is None ==> final(self).value == Some([*x, *y, *z]),
            final(self).point() == old(self).ops.op(old(self).point(), old(self).ops.point_of(*x, *y, *z)),
    {
        proof {
            self.ops.lemma_point_in_group(*x, *y, *z);
            crate::group::lemma_identity_left(self.ops, self.ops.point_of(*x, *y, *z));
        }
        if let Some(value) = &mut self.value {
            self.ops.points_add_vartime(InOut::InPlace(value), x, y, z);
        } else {
            self.value = Some([*x, *y, *z]);
        }
    }
}

/// Width of the window that the scalar multiplication recodes with.
pub const WINDOW_BITS: u32 = 4;

/// Number of entries of the table of odd multiples: `2^(WINDOW_BITS - 1)`.
pub const PRECOMP_SIZE: usize = 8;

/// Whether entry `i` of the table is `(2i + 1)·g`, for every `i`.
pub open spec fn is_odd_multiples<C: CurveOps>(ops: &C, table: [Triple; PRECOMP_SIZE], g: C::G) -> bool {
    forall|i: int|
        0 <= i < PRECOMP_SIZE ==> valid(ops, #[trigger] table[i]) && value(ops, table[i]) == multiple(
            ops,
            g,
            2 * i + 1,
        )
}

/// The index of the table entry that serves the digit `d`: half its
/// magnitude, rounded down.
pub open spec fn digit_index(d: int) -> int {
    (if d < 0 { -d } else { d }) / 2
}

/// The field's multiplicative identity in the field's domain, computed as
/// the plain integer 1 times the conversion constant.
pub fn domain_one<C: CurveOps>(ops: &C) -> (r: Elem)
    requires
        ops.wf(),
    ensures
        r == ops.spec_one(),
{
    let mut acc = Elem::zero();
    acc.limbs[0] = 1;
    let mut rr = Elem::zero();
    let num_limbs = ops.num_limbs();
    let constant = ops.rr();
    proof {
        ops.lemma_sizes();
    }
    let mut i: usize = 0;
    while i < num_limbs
        invariant
            i <= num_limbs <= MAX_LIMBS,
            forall|j: int| 0 <= j < i ==> rr.limbs[j] == constant[j],
            forall|j: int| i <= j < MAX_LIMBS ==> rr.limbs[j] == 0,
        decreases num_limbs - i,
    {
        rr.limbs[i] = constant[i];
        i += 1;
    }
    proof {
        ops.lemma_domain_one(acc, rr);
    }
    ops.elem_mul(&mut acc, &rr);
    acc
}

/// Builds the table of the odd multiples of the point `(x, y)`:
/// entry `i` is `(2i + 1)` times the point.
pub fn odd_multiples<C: CurveOps>(ops: &C, x: &Elem, y: &Elem) -> (table: [Triple; PRECOMP_SIZE])
    requires
        ops.wf(),
        ops.on_curve(*x, *y, ops.spec_one()),
        ops.complete() || (ops.order() >= 16 && ops.point_of(*x, *y, ops.spec_one())
            != ops.identity()),
    ensures
        is_odd_multiples(ops, table, ops.point_of(*x, *y, ops.spec_one())),
        table[0][0] == *x,
        table[0][1] == *y,
        table[0][2] == ops.spec_one(),
{
    let ghost g = ops.point_of(*x, *y, ops.spec_one());
    let mut precomp: [Triple; PRECOMP_SIZE] = [[Elem::zero(); 3]; PRECOMP_SIZE];
    precomp[0][0] = *x;
    precomp[0][1] = *y;
    precomp[0][2] = domain_one(ops);
    proof {
        ops.lemma_point_in_group(*x, *y, ops.spec_one());
        lemma_multiple_two(ops, g);
    }
    let mut p2: Triple = [Elem::zero(); 3];
    ops.point_double(InOut::OutOfPlace { output: &mut p2, input: &precomp[0] });
    let mut i: usize = 1;
    while i < PRECOMP_SIZE
        invariant
            1 <= i <= PRECOMP_SIZE,
            ops.wf(),
            ops.contains(g),
            ops.complete() || (ops.order() >= 16 && g != ops.identity()),
            valid(ops, p2),
            value(ops, p2) == multiple(ops, g, 2),
            precomp[0][0] == *x,
            precomp[0][1] == *y,
            precomp[0][2] == ops.spec_one(),
            forall|j: int|
                0 <= j < i ==> valid(ops, #[trigger] precomp[j]) && value(ops, precomp[j])
                    == multiple(ops, g, 2 * j + 1),
        decreases PRECOMP_SIZE - i,
    {
        let prev: Triple = precomp[i - 1];
        proof {
            if !ops.complete() {
                ops.lemma_prime_order(g, 2);
                ops.lemma_prime_order(g, 2 * i - 1);
            }
            lemma_multiple_add(ops, g, 2, 2 * i - 1);
        }
        ops.points_add_vartime(
            InOut::OutOfPlace { output: &mut precomp[i], input: &p2 },
            &prev[0],
            &prev[1],
            &prev[2],
        );
        i += 1;
    }
    precomp
}

/// The triple that serves the digit: the table entry at `digit_index`, with
/// `y` negated where the digit is negative.
pub fn table_entry<C: CurveOps>(ops: &C, precomp: &[Triple; PRECOMP_SIZE], digit: i8) -> (r: Triple)
    requires
        ops.wf(),
        -16 < digit < 16,
    ensures
        r[0] == precomp[digit_index(digit as int)][0],
        r[2] == precomp[digit_index(digit as int)][2],
        r[1] == if digit < 0 {
            ops.spec_negate(precomp[digit_index(digit as int)][1])
        } else {
            precomp[digit_index(digit as int)][1]
        },
{
    let neg = digit < 0;
    let magnitude: u8 = if neg {
        (-digit) as u8
    } else {
        digit as u8
    };
    assert(magnitude >> 1 == magnitude / 2) by (bit_vector);
    let idx: usize = (magnitude >> 1) as usize;
    let entry: Triple = precomp[idx];
    let mut y = entry[1];
    if neg {
        ops.elem_negate_vartime(&mut y);
    }
    [entry[0], y, entry[2]]
}

/// A table entry, taken for an odd digit `d`, is `d` times the point that
/// the table was built for: the entry at index `|d| >> 1` is `|d|` times the
/// point, and negating its `y` turns it into the inverse.
pub proof fn lemma_table_entry<C: CurveOps>(ops: &C, table: [Triple; PRECOMP_SIZE], g: C::G, d: int)
    requires
        ops.wf(),
        ops.contains(g),
        is_odd_multiples(ops, table, g),
        -16 < d < 16,
        d % 2 == 1,
    ensures
        0 <= digit_index(d) < 8,
        2 * digit_index(d) + 1 == if d < 0 { -d } else { d },
        valid(ops, table[digit_index(d)]),
        value(ops, table[digit_index(d)]) == multiple(ops, g, if d < 0 { -d } else { d }),
        d > 0 ==> value(ops, table[digit_index(d)]) == multiple(ops, g, d),
        d < 0 ==> ops.on_curve(
            table[digit_index(d)][0],
            ops.spec_negate(table[digit_index(d)][1]),
            table[digit_index(d)][2],
        ) && ops.point_of(
            table[digit_index(d)][0],
            ops.spec_negate(table[digit_index(d)][1]),
            table[digit_index(d)][2],
        ) == multiple(ops, g, d),
{
    let e = table[digit_index(d)];
    assert(valid(ops, e));
    if d < 0 {
        ops.lemma_negated_point(e[0], e[1], e[2]);
        lemma_multiple_neg(ops, g, -d);
    }
}

/// Multiplies the point `p` by the scalar `a`, in variable time.
///
/// The scalar has at most as many bits as the group order. Where the
/// backend's addition does not take the point at infinity, the scalar is
/// below the order, the point is not the point at infinity, and the order is
/// at least 16, so that no entry of the table of odd multiples and no
/// intermediate sum is the point at infinity.
///
/// The result is a triple on the curve that stands for `a` times the point.
/// For the scalar zero it is the all-zero triple.
pub fn point_mul_vartime<C: CurveOps>(ops: &C, a: &Scalar, p: &(Elem, Elem)) -> (r: Triple)
    requires
        ops.wf(),
        ops.on_curve(p.0, p.1, ops.spec_one()),
        a.value() < pow2(ops.spec_order_bits()),
        ops.complete() || (a.value() < ops.order() && ops.order() >= 16 && ops.point_of(
            p.0,
            p.1,
            ops.spec_one(),
        ) != ops.identity()),
    ensures
        valid(ops, r),
        value(ops, r) == multiple(ops, ops.point_of(p.0, p.1, ops.spec_one()), a.value() as int),
        a.value() == 0 ==> is_zero_triple(r),
        a.value() % ops.order() == 0 ==> value(ops, r) == ops.identity(),
        a.value() != 0 && !ops.complete() ==> value(ops, r) != ops.identity(),
{
    let ghost g = ops.point_of(p.0, p.1, ops.spec_one());
    let ghost k = a.value();
    let ghost n = ops.order();
    let precomp = odd_multiples(ops, &p.0, &p.1);
    let order_bits = ops.order_bits();
    proof {
        ops.lemma_sizes();
        ops.lemma_point_in_group(p.0, p.1, ops.spec_one());
        ops.lemma_identity_in_group();
        vstd::arithmetic::power2::lemma2_to64();
    }
    let digits = recode_wnaf(&a.limbs, order_bits, WINDOW_BITS);
    let mut acc = PointVartime::new_at_infinity(ops);
    proof {
        lemma_rest_ends(k, WINDOW_BITS as nat, order_bits as nat);
    }
    let mut j: usize = order_bits + 1;
    while j > 0
        invariant
            0 <= j <= order_bits + 1,
            order_bits <= 384,
            ops.wf(),
            ops.contains(g),
            n == ops.order(),
            ops.complete() || (k < n && n >= 16 && g != ops.identity()),
            is_odd_multiples(ops, precomp, g),
            forall|i: int| 0 <= i <= order_bits ==> #[trigger] digits[i] as int == wnaf(k, WINDOW_BITS as nat, i as nat),
            acc.ops == ops,
            acc.wf(),
            (acc.value is None) == (wnaf_rest(k, WINDOW_BITS as nat, j as nat) == 0),
            acc.point() == multiple(
                ops,
                g,
                if j == 0 {
                    wnaf_rest(k, WINDOW_BITS as nat, 0) as int
                } else {
                    2 * (wnaf_rest(k, WINDOW_BITS as nat, j as nat) as int)
                },
            ),
        decreases j,
    {
        let i: usize = j - 1;
        let digit: i8 = digits[i];
        let ghost upper = wnaf_rest(k, WINDOW_BITS as nat, j as nat) as int;
        let ghost here = wnaf_rest(k, WINDOW_BITS as nat, i as nat) as int;
        proof {
            vstd::arithmetic::power2::lemma2_to64();
            lemma_rest_step(k, WINDOW_BITS as nat, i as nat);
            lemma_digit(wnaf_rest(k, WINDOW_BITS as nat, i as nat), WINDOW_BITS as nat);
            assert(digit as int == wnaf(k, WINDOW_BITS as nat, i as nat));
            assert(here == digit + 2 * upper);
        }
        if digit != 0 {
            let entry = table_entry(ops, &precomp, digit);
            proof {
                lemma_table_entry(ops, precomp, g, digit as int);
                assert(valid(ops, entry));
                assert(value(ops, entry) == multiple(ops, g, digit as int));
                if !ops.complete() {
                    // a table entry is never the point at infinity
                    let magnitude: int = if digit < 0 {
                        -digit
                    } else {
                        digit as int
                    };
                    ops.lemma_prime_order(g, magnitude);
                    if digit < 0 {
                        lemma_multiple_closed(ops, g, magnitude);
                        lemma_inverse_not_identity(ops, multiple(ops, g, magnitude));
                        lemma_multiple_neg(ops, g, magnitude);
                    }
                    if acc.value is Some {
                        // nor is the accumulator, which holds twice a multiple below the order
                        lemma_rest_below(k, WINDOW_BITS as nat, n, j as nat);
                        let q = multiple(ops, g, upper);
                        lemma_multiple_closed(ops, g, upper);
                        ops.lemma_prime_order(g, upper);
                        ops.lemma_prime_order(q, 2);
                        lemma_multiple_of_multiple(ops, g, upper, 2);
                    }
                }
                lemma_multiple_add(ops, g, 2 * upper, digit as int);
            }
            acc.add_assign(&entry[0], &entry[1], &entry[2]);
        }
        assert(acc.point() == multiple(ops, g, here));
        assert((acc.value is None) == (here == 0));
        if i != 0 {
            proof {
                lemma_multiple_add(ops, g, here, here);
            }
            acc.double_assign();
        }
        j = i;
    }
    proof {
        if k != 0 && !ops.complete() {
            ops.lemma_prime_order(g, k as int);
        }
        if k % n == 0 {
            crate::laws::lemma_multiple_by_order_multiple(ops, g, k as int);
        }
    }
    match acc.value {
        Some(value) => value,
        None => {
            let zero = [Elem::zero(); 3];
            proof {
                ops.lemma_zero_triple(zero[0], zero[1], zero[2]);
            }
            zero
        },
    }
}

/// Computes `g_scalar·G + p_scalar·P` in variable time, as a finished point:
/// the sum of the two products that `point_mul_vartime` gives.
///
/// Where the backend's addition does not take the point at infinity,
/// neither scalar is zero, so that neither product is the point at infinity.
pub fn points_mul_vartime<C: CurveOps>(
    ops: &C,
    g_scalar: &Scalar,
    g: &(Elem, Elem),
    p_scalar: &Scalar,
    p: &(Elem, Elem),
) -> (r: C::Point)
    requires
        ops.wf(),
        ops.on_curve(g.0, g.1, ops.spec_one()),
        ops.on_curve(p.0, p.1, ops.spec_one()),
        g_scalar.value() < pow2(ops.spec_order_bits()),
        p_scalar.value() < pow2(ops.spec_order_bits()),
        ops.complete() || (ops.order() >= 16 && 0 < g_scalar.value() < ops.order() && 0
            < p_scalar.value() < ops.order() && ops.point_of(g.0, g.1, ops.spec_one())
            != ops.identity() && ops.point_of(p.0, p.1, ops.spec_one()) != ops.identity()),
    ensures
        ops.finished(r) == ops.op(
            multiple(ops, ops.point_of(g.0, g.1, ops.spec_one()), g_scalar.value() as int),
            multiple(ops, ops.point_of(p.0, p.1, ops.spec_one()), p_scalar.value() as int),
        ),
{
    let mut acc = point_mul_vartime(ops, g_scalar, g);
    let second = point_mul_vartime(ops, p_scalar, p);
    ops.points_add_vartime(InOut::InPlace(&mut acc), &second[0], &second[1], &second[2]);
    ops.new_point(&acc[0], &acc[1], &acc[2])
}

} // verus!
