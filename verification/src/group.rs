use vstd::prelude::*;

verus! {

/// The mathematical group in which a curve's points live.
///
/// An implementor names the type of group elements, says which values of that
/// type are elements, and proves that `op`, `identity` and `inverse` make them
/// an abelian group.
pub trait GroupLaws: Sized {
    /// A group element.
    type G;

    /// Whether this context describes a group at all.
    spec fn wf(&self) -> bool;

    /// Whether `a` is an element of the group.
    spec fn contains(&self, a: Self::G) -> bool;

    /// The neutral element: the point at infinity.
    spec fn identity(&self) -> Self::G;

    /// The group law.
    spec fn op(&self, a: Self::G, b: Self::G) -> Self::G;

    /// The inverse of an element.
    spec fn inverse(&self, a: Self::G) -> Self::G;

    /// The neutral element is an element of the group.
    proof fn lemma_identity_in_group(&self)
        requires
            self.wf(),
        ensures
            self.contains(self.identity()),
    ;

    /// The group is closed under its operations.
    proof fn lemma_closed(&self, a: Self::G, b: Self::G)
        requires
            self.wf(),
            self.contains(a),
            self.contains(b),
        ensures
            self.contains(self.op(a, b)),
            self.contains(self.inverse(a)),
    ;

    /// The group law is associative.
    proof fn lemma_assoc(&self, a: Self::G, b: Self::G, c: Self::G)
        requires
            self.wf(),
            self.contains(a),
            self.contains(b),
            self.contains(c),
        ensures
            self.op(self.op(a, b), c) == self.op(a, self.op(b, c)),
    ;

    /// The group law is commutative.
    proof fn lemma_comm(&self, a: Self::G, b: Self::G)
        requires
            self.wf(),
            self.contains(a),
            self.contains(b),
        ensures
            self.op(a, b) == self.op(b, a),
    ;

    /// Adding the neutral element changes nothing.
    proof fn lemma_identity(&self, a: Self::G)
        requires
            self.wf(),
            self.contains(a),
        ensures
            self.op(a, self.identity()) == a,
    ;

    /// An element and its inverse add up to the neutral element.
    proof fn lemma_inverse(&self, a: Self::G)
        requires
            self.wf(),
            self.contains(a),
        ensures
            self.op(a, self.inverse(a)) == self.identity(),
    ;
}

/// The `k`-fold multiple of `g`: `g` added to itself `k` times, and the
/// inverse of the `-k`-fold multiple where `k` is negative.
pub open spec fn multiple<C: GroupLaws>(ops: &C, g: C::G, k: int) -> C::G
    decreases (if k >= 0 { k } else { -k }), (if k < 0 { 1int } else { 0int }),
{
    if k == 0 {
        ops.identity()
    } else if k > 0 {
        ops.op(multiple(ops, g, k - 1), g)
    } else {
        ops.inverse(multiple(ops, g, -k))
    }
}

/// Every multiple of a group element is a group element.
pub proof fn lemma_multiple_closed<C: GroupLaws>(ops: &C, g: C::G, k: int)
    requires
        ops.wf(),
        ops.contains(g),
    ensures
        ops.contains(multiple(ops, g, k)),
    decreases (if k >= 0 { k } else { -k }), (if k < 0 { 1int } else { 0int }),
{
    ops.lemma_identity_in_group();
    if k == 0 {
    } else if k > 0 {
        lemma_multiple_closed(ops, g, k - 1);
        ops.lemma_closed(multiple(ops, g, k - 1), g);
    } else {
        lemma_multiple_closed(ops, g, -k);
        ops.lemma_closed(multiple(ops, g, -k), g);
    }
}

/// The neutral element is neutral on the left too.
pub proof fn lemma_identity_left<C: GroupLaws>(ops: &C, a: C::G)
    requires
        ops.wf(),
        ops.contains(a),
    ensures
        ops.op(ops.identity(), a) == a,
{
    ops.lemma_identity_in_group();
    ops.lemma_comm(ops.identity(), a);
    ops.lemma_identity(a);
}

/// An element has one inverse only: what adds up with `a` to the neutral
/// element is `inverse(a)`.
pub proof fn lemma_inverse_unique<C: GroupLaws>(ops: &C, a: C::G, b: C::G)
    requires
        ops.wf(),
        ops.contains(a),
        ops.contains(b),
        ops.op(a, b) == ops.identity(),
    ensures
        b == ops.inverse(a),
{
    let ia = ops.inverse(a);
    ops.lemma_closed(a, b);
    lemma_identity_left(ops, b);
    ops.lemma_inverse(a);
    ops.lemma_comm(a, ia);
    ops.lemma_assoc(ia, a, b);
    ops.lemma_identity(ia);
}

/// The inverse of a sum is the sum of the inverses.
pub proof fn lemma_inverse_of_sum<C: GroupLaws>(ops: &C, a: C::G, b: C::G)
    requires
        ops.wf(),
        ops.contains(a),
        ops.contains(b),
    ensures
        ops.inverse(ops.op(a, b)) == ops.op(ops.inverse(a), ops.inverse(b)),
{
    let ia = ops.inverse(a);
    let ib = ops.inverse(b);
    ops.lemma_closed(a, b);
    ops.lemma_closed(b, a);
    ops.lemma_closed(ia, ib);
    ops.lemma_closed(b, ops.op(ia, ib));
    ops.lemma_closed(b, ib);
    // (a + b) + (ia + ib) = a + (b + (ia + ib)) = a + ((b + ib) + ia) = a + ia = 0
    ops.lemma_assoc(a, b, ops.op(ia, ib));
    ops.lemma_comm(ia, ib);
    ops.lemma_assoc(b, ib, ia);
    ops.lemma_inverse(b);
    lemma_identity_left(ops, ia);
    ops.lemma_inverse(a);
    lemma_inverse_unique(ops, ops.op(a, b), ops.op(ia, ib));
}

/// Only the neutral element has the neutral element as its inverse.
pub proof fn lemma_inverse_not_identity<C: GroupLaws>(ops: &C, a: C::G)
    requires
        ops.wf(),
        ops.contains(a),
        a != ops.identity(),
    ensures
        ops.inverse(a) != ops.identity(),
{
    ops.lemma_inverse(a);
    ops.lemma_identity(a);
}

/// Adding `b` and then its inverse gives back `a`.
pub proof fn lemma_cancel<C: GroupLaws>(ops: &C, a: C::G, b: C::G)
    requires
        ops.wf(),
        ops.contains(a),
        ops.contains(b),
    ensures
        ops.op(ops.op(a, b), ops.inverse(b)) == a,
{
    ops.lemma_closed(b, b);
    ops.lemma_assoc(a, b, ops.inverse(b));
    ops.lemma_inverse(b);
    ops.lemma_identity(a);
}

/// Multiples add up, for scalars that are not negative.
pub proof fn lemma_multiple_add_nat<C: GroupLaws>(ops: &C, g: C::G, a: int, b: int)
    requires
        ops.wf(),
        ops.contains(g),
        a >= 0,
        b >= 0,
    ensures
        multiple(ops, g, a + b) == ops.op(multiple(ops, g, a), multiple(ops, g, b)),
    decreases b,
{
    lemma_multiple_closed(ops, g, a);
    if b == 0 {
        ops.lemma_identity(multiple(ops, g, a));
    } else {
        lemma_multiple_add_nat(ops, g, a, b - 1);
        lemma_multiple_closed(ops, g, b - 1);
        ops.lemma_assoc(multiple(ops, g, a), multiple(ops, g, b - 1), g);
    }
}

/// The multiple by `-k` is the inverse of the multiple by `k`.
pub proof fn lemma_multiple_neg<C: GroupLaws>(ops: &C, g: C::G, k: int)
    requires
        ops.wf(),
        ops.contains(g),
    ensures
        multiple(ops, g, -k) == ops.inverse(multiple(ops, g, k)),
{
    lemma_multiple_closed(ops, g, k);
    lemma_multiple_closed(ops, g, -k);
    ops.lemma_identity_in_group();
    if k == 0 {
        ops.lemma_identity(ops.identity());
        lemma_inverse_unique(ops, ops.identity(), ops.identity());
    } else if k > 0 {
    } else {
        // multiple(k) is the inverse of multiple(-k); so multiple(-k) is the inverse of multiple(k)
        let m = multiple(ops, g, -k);
        ops.lemma_inverse(m);
        ops.lemma_comm(m, ops.inverse(m));
        lemma_inverse_unique(ops, ops.inverse(m), m);
    }
}

/// Multiples add up: `(a + b)·g = a·g + b·g` for all integers `a` and `b`.
pub proof fn lemma_multiple_add<C: GroupLaws>(ops: &C, g: C::G, a: int, b: int)
    requires
        ops.wf(),
        ops.contains(g),
    ensures
        multiple(ops, g, a + b) == ops.op(multiple(ops, g, a), multiple(ops, g, b)),
{
    let ma = multiple(ops, g, a);
    let mb = multiple(ops, g, b);
    let mc = multiple(ops, g, a + b);
    lemma_multiple_closed(ops, g, a);
    lemma_multiple_closed(ops, g, b);
    lemma_multiple_closed(ops, g, a + b);
    if a >= 0 && b >= 0 {
        lemma_multiple_add_nat(ops, g, a, b);
    } else if a <= 0 && b <= 0 {
        lemma_multiple_add_nat(ops, g, -a, -b);
        lemma_multiple_closed(ops, g, -a);
        lemma_multiple_closed(ops, g, -b);
        lemma_inverse_of_sum(ops, multiple(ops, g, -a), multiple(ops, g, -b));
        lemma_multiple_neg(ops, g, -a);
        lemma_multiple_neg(ops, g, -b);
        lemma_multiple_neg(ops, g, -a - b);
    } else if a >= 0 {
        lemma_multiple_add_mixed(ops, g, a, b);
    } else {
        lemma_multiple_add_mixed(ops, g, b, a);
        ops.lemma_comm(ma, mb);
    }
}

/// Multiples add up where the first scalar is not negative and the second is.
proof fn lemma_multiple_add_mixed<C: GroupLaws>(ops: &C, g: C::G, a: int, b: int)
    requires
        ops.wf(),
        ops.contains(g),
        a >= 0,
        b < 0,
    ensures
        multiple(ops, g, a + b) == ops.op(multiple(ops, g, a), multiple(ops, g, b)),
{
    let ma = multiple(ops, g, a);
    let nb = multiple(ops, g, -b);
    let c = a + b;
    lemma_multiple_closed(ops, g, a);
    lemma_multiple_closed(ops, g, -b);
    lemma_multiple_closed(ops, g, c);
    lemma_multiple_closed(ops, g, -c);
    lemma_multiple_neg(ops, g, -b);
    assert(multiple(ops, g, b) == ops.inverse(nb));
    if c >= 0 {
        lemma_multiple_add_nat(ops, g, c, -b);
        assert(ma == ops.op(multiple(ops, g, c), nb));
        lemma_cancel(ops, multiple(ops, g, c), nb);
    } else {
        let nc = multiple(ops, g, -c);
        lemma_multiple_add_nat(ops, g, a, -c);
        assert(nb == ops.op(ma, nc));
        lemma_inverse_of_sum(ops, ma, nc);
        lemma_multiple_neg(ops, g, -c);
        assert(multiple(ops, g, c) == ops.inverse(nc));
        // ma + (inv(ma) + inv(nc)) = (inv(nc) + inv(ma)) + ma = inv(nc)
        let ima = ops.inverse(ma);
        let inc = ops.inverse(nc);
        ops.lemma_closed(ma, nc);
        ops.lemma_closed(nc, ma);
        ops.lemma_closed(ima, inc);
        ops.lemma_comm(ima, inc);
        ops.lemma_comm(ma, ops.op(inc, ima));
        ops.lemma_assoc(inc, ima, ma);
        ops.lemma_inverse(ma);
        ops.lemma_comm(ma, ima);
        ops.lemma_identity(inc);
    }
}

/// Twice a point is the point added to itself.
pub proof fn lemma_multiple_two<C: GroupLaws>(ops: &C, g: C::G)
    requires
        ops.wf(),
        ops.contains(g),
    ensures
        multiple(ops, g, 1) == g,
        multiple(ops, g, 2) == ops.op(g, g),
{
    reveal_with_fuel(multiple, 3);
    lemma_identity_left(ops, g);
}

/// A multiple of a multiple: `b·(a·g) = (a·b)·g`, for `b` not negative.
pub proof fn lemma_multiple_of_multiple<C: GroupLaws>(ops: &C, g: C::G, a: int, b: int)
    requires
        ops.wf(),
        ops.contains(g),
        b >= 0,
    ensures
        multiple(ops, multiple(ops, g, a), b) == multiple(ops, g, a * b),
    decreases b,
{
    if b == 0 {
        assert(a * b == 0);
    } else {
        lemma_multiple_of_multiple(ops, g, a, b - 1);
        lemma_multiple_add(ops, g, a * (b - 1), a);
        assert(a * (b - 1) + a == a * b) by (nonlinear_arith);
    }
}

} // verus!
