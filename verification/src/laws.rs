use vstd::prelude::*;
use vstd::arithmetic::div_mod::lemma_fundamental_div_mod;
use crate::curve::CurveOps;
use crate::group::GroupLaws;
use crate::group::multiple;
use crate::group::lemma_multiple_add;
use crate::group::lemma_multiple_closed;
use crate::group::lemma_multiple_neg;
use crate::group::lemma_multiple_of_multiple;
use crate::group::lemma_identity_left;
use crate::group::lemma_inverse_unique;

verus! {

/// Every multiple of the point at infinity is the point at infinity.
pub proof fn lemma_multiple_of_identity<C: GroupLaws>(ops: &C, k: int)
    requires
        ops.wf(),
    ensures
        multiple(ops, ops.identity(), k) == ops.identity(),
    decreases (if k >= 0 { k } else { -k }), (if k < 0 { 1int } else { 0int }),
{
    ops.lemma_identity_in_group();
    if k > 0 {
        lemma_multiple_of_identity(ops, k - 1);
        ops.lemma_identity(ops.identity());
    } else if k < 0 {
        lemma_multiple_of_identity(ops, -k);
        ops.lemma_identity(ops.identity());
        lemma_inverse_unique(ops, ops.identity(), ops.identity());
    }
}

/// A scalar that is a multiple of the group order takes every point to the
/// point at infinity.
pub proof fn lemma_multiple_by_order_multiple<C: CurveOps>(ops: &C, g: C::G, k: int)
    requires
        ops.wf(),
        ops.contains(g),
        k % (ops.order() as int) == 0,
    ensures
        multiple(ops, g, k) == ops.identity(),
{
    let n = ops.order() as int;
    let t = k / n;
    ops.lemma_sizes();
    ops.lemma_order(g);
    ops.lemma_identity_in_group();
    lemma_fundamental_div_mod(k, n);
    assert(k == n * t);
    if t >= 0 {
        lemma_multiple_of_multiple(ops, g, n, t);
        lemma_multiple_of_identity(ops, t);
    } else {
        lemma_multiple_of_multiple(ops, g, n, -t);
        lemma_multiple_of_identity(ops, -t);
        assert(n * (-t) == -k) by (nonlinear_arith)
            requires
                k == n * t,
        ;
        lemma_multiple_neg(ops, g, -k);
        ops.lemma_identity(ops.identity());
        lemma_inverse_unique(ops, ops.identity(), ops.identity());
    }
}

/// A scalar and its residue modulo the group order take a point to the same
/// multiple.
pub proof fn lemma_multiple_mod_order<C: CurveOps>(ops: &C, g: C::G, k: int)
    requires
        ops.wf(),
        ops.contains(g),
    ensures
        multiple(ops, g, k % (ops.order() as int)) == multiple(ops, g, k),
{
    let n = ops.order() as int;
    ops.lemma_sizes();
    lemma_fundamental_div_mod(k, n);
    let whole = n * (k / n);
    vstd::arithmetic::div_mod::lemma_mod_multiples_basic(k / n, n);
    assert(whole == (k / n) * n) by (nonlinear_arith)
        requires
            whole == n * (k / n),
    ;
    lemma_multiple_by_order_multiple(ops, g, whole);
    lemma_multiple_add(ops, g, whole, k % n);
    lemma_multiple_closed(ops, g, k % n);
    lemma_identity_left(ops, multiple(ops, g, k % n));
}

/// Scalar multiplication is additive modulo the group order: the multiple by
/// `(a + b) mod order` is the sum of the multiples by `a` and by `b`.
pub proof fn lemma_multiple_add_mod_order<C: CurveOps>(ops: &C, g: C::G, a: int, b: int)
    requires
        ops.wf(),
        ops.contains(g),
    ensures
        multiple(ops, g, (a + b) % (ops.order() as int)) == ops.op(
            multiple(ops, g, a),
            multiple(ops, g, b),
        ),
{
    lemma_multiple_mod_order(ops, g, a + b);
    lemma_multiple_add(ops, g, a, b);
}

} // verus!
