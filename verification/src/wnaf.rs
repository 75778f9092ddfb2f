use vstd::prelude::*;
use vstd::arithmetic::power2::pow2;
use vstd::arithmetic::power2::lemma_pow2_pos;
use vstd::arithmetic::power2::lemma_pow2_unfold;
use vstd::arithmetic::power2::lemma_pow2_adds;
use vstd::arithmetic::power2::lemma_pow2_strictly_increases;
use vstd::arithmetic::power2::lemma2_to64;
use vstd::arithmetic::div_mod::lemma_fundamental_div_mod;
use vstd::arithmetic::div_mod::lemma_fundamental_div_mod_converse;
use vstd::arithmetic::div_mod::lemma_div_denominator;
use vstd::arithmetic::div_mod::lemma_mod_bound;
use vstd::arithmetic::div_mod::lemma_small_mod;
use crate::elem::limbs_value;
use crate::elem::MAX_BITS;
use crate::elem::MAX_LIMBS;

verus! {

/// Number of digits that the recoder writes at most: one more than the
/// largest order has bits.
pub const WNAF_LEN: usize = 385;

/// The signed digit that the window of width `w` takes from `r`: zero where
/// `r` is even, else the residue of `r` modulo `2^(w+1)` that lies strictly
/// between `-2^w` and `2^w`.
pub open spec fn wnaf_digit(r: nat, w: nat) -> int {
    if r % 2 == 0 {
        0
    } else {
        let m = r % pow2(w + 1);
        if m >= pow2(w) {
            m - pow2(w + 1)
        } else {
            m as int
        }
    }
}

/// What is left of `k` when its `j` lowest digits have been taken: each
/// step takes the digit off and halves.
pub open spec fn wnaf_rest(k: nat, w: nat, j: nat) -> nat
    decreases j,
{
    if j == 0 {
        k
    } else {
        let r = wnaf_rest(k, w, (j - 1) as nat);
        ((r - wnaf_digit(r, w)) / 2) as nat
    }
}

/// Digit `j` of the windowed non-adjacent form of `k` for window width `w`.
pub open spec fn wnaf(k: nat, w: nat, j: nat) -> int {
    wnaf_digit(wnaf_rest(k, w, j), w)
}

/// The integer that the digits from index `from` on stand for, the digit at
/// `from` counting once, the next one twice, and so on:
/// the sum of `digits[i] * 2^(i - from)`.
pub open spec fn digits_value(digits: Seq<i8>, from: int) -> int
    decreases digits.len() - from,
{
    if from < 0 || from >= digits.len() {
        0
    } else {
        digits[from] as int + 2 * digits_value(digits, from + 1)
    }
}

/// Bit `i` of `k`.
pub open spec fn bit_of(k: nat, i: nat) -> nat {
    (k / pow2(i)) % 2
}

/// A digit is zero exactly where `r` is even; otherwise it is odd, lies
/// strictly between `-2^w` and `2^w`, and taking it off leaves a multiple of
/// `2^(w+1)`. It is never larger than `r`.
pub proof fn lemma_digit(r: nat, w: nat)
    requires
        w >= 1,
    ensures
        -pow2(w) < wnaf_digit(r, w) < pow2(w),
        wnaf_digit(r, w) <= r,
        (wnaf_digit(r, w) == 0) == (r % 2 == 0),
        wnaf_digit(r, w) != 0 ==> wnaf_digit(r, w) % 2 == 1,
        (r - wnaf_digit(r, w)) % 2 == 0,
        wnaf_digit(r, w) != 0 ==> (r - wnaf_digit(r, w)) % (pow2(w + 1) as int) == 0,
{
    let h = pow2(w) as int;
    let p = pow2(w + 1) as int;
    let hh = pow2((w - 1) as nat) as int;
    lemma_pow2_unfold(w + 1);
    lemma_pow2_unfold(w);
    lemma_pow2_pos((w - 1) as nat);
    assert(p == 2 * h && h == 2 * hh && hh > 0);
    let q = r as int / p;
    let m = r as int % p;
    lemma_fundamental_div_mod(r as int, p);
    lemma_mod_bound(r as int, p);
    assert(r == 2 * (h * q) + m) by (nonlinear_arith)
        requires
            r == p * q + m,
            p == 2 * h,
    ;
    if r % 2 != 0 {
        assert(m % 2 == 1);
        let d = wnaf_digit(r, w);
        if m >= h {
            assert(d == m - p);
            assert(r - d == p * (q + 1)) by (nonlinear_arith)
                requires
                    r == p * q + m,
                    d == m - p,
            ;
            vstd::arithmetic::div_mod::lemma_mod_multiples_basic(q + 1, p);
            assert((p * (q + 1)) % p == 0) by {
                vstd::arithmetic::mul::lemma_mul_is_commutative(p, q + 1);
            }
        } else {
            assert(d == m);
            assert(r - d == p * q);
            vstd::arithmetic::div_mod::lemma_mod_multiples_basic(q, p);
            assert((p * q) % p == 0) by {
                vstd::arithmetic::mul::lemma_mul_is_commutative(p, q);
            }
        }
    }
}

/// One step of the recoding: what is left before digit `j` is that digit
/// plus twice what is left after it.
pub proof fn lemma_rest_step(k: nat, w: nat, j: nat)
    requires
        w >= 1,
    ensures
        wnaf_rest(k, w, j) == wnaf(k, w, j) + 2 * wnaf_rest(k, w, j + 1),
{
    lemma_digit(wnaf_rest(k, w, j), w);
    assert(wnaf_rest(k, w, j + 1) == ((wnaf_rest(k, w, j) - wnaf(k, w, j)) / 2) as nat);
}

/// Where `k` has at most `bits` bits, what is left after `j` digits has at
/// most `bits - j` bits, or is `2^(bits - j)` itself.
pub proof fn lemma_rest_fits(k: nat, w: nat, bits: nat, j: nat)
    requires
        w >= 1,
        k < pow2(bits),
        j <= bits,
    ensures
        wnaf_rest(k, w, j) <= pow2((bits - j) as nat),
    decreases j,
{
    if j > 0 {
        let r = wnaf_rest(k, w, (j - 1) as nat);
        let e = (bits - j + 1) as nat;
        lemma_rest_fits(k, w, bits, (j - 1) as nat);
        lemma_rest_step(k, w, (j - 1) as nat);
        lemma_digit(r, w);
        lemma_pow2_unfold(e);
        let d = wnaf_digit(r, w);
        let half = pow2((e - 1) as nat) as int;
        assert(r <= 2 * half);
        if d < 0 {
            let h = pow2(w) as int;
            let p = pow2(w + 1) as int;
            lemma_pow2_unfold(w + 1);
            let q = r as int / p;
            let m = r as int % p;
            lemma_fundamental_div_mod(r as int, p);
            assert(m >= h);
            if e >= w + 1 {
                let c = pow2((e - (w + 1)) as nat) as int;
                lemma_pow2_adds(w + 1, (e - (w + 1)) as nat);
                assert(p * c == 2 * half);
                assert(q < c) by (nonlinear_arith)
                    requires
                        p * q + m <= p * c,
                        m > 0,
                        p > 0,
                ;
                assert(p * (q + 1) <= p * c) by (nonlinear_arith)
                    requires
                        q + 1 <= c,
                        p > 0,
                ;
                assert(r - d == p * (q + 1)) by (nonlinear_arith)
                    requires
                        r == p * q + m,
                        d == m - p,
                ;
            } else {
                if e < w {
                    lemma_pow2_strictly_increases(e, w);
                }
                lemma_small_mod(r, p as nat);
                assert(false);
            }
        }
    }
}

/// Where `k` has at most `bits` bits, nothing is left after `bits + 1` digits.
pub proof fn lemma_rest_ends(k: nat, w: nat, bits: nat)
    requires
        w >= 1,
        k < pow2(bits),
    ensures
        wnaf_rest(k, w, bits + 1) == 0,
{
    let r = wnaf_rest(k, w, bits);
    lemma_rest_fits(k, w, bits, bits);
    lemma_rest_step(k, w, bits);
    lemma_digit(r, w);
    lemma2_to64();
    assert(r <= 1);
    if r == 1 {
        lemma_pow2_unfold(w + 1);
        lemma_pow2_unfold(w);
        lemma_pow2_pos((w - 1) as nat);
        lemma_small_mod(1, pow2(w + 1));
        assert(wnaf_digit(r, w) == 1);
    }
}

/// Once nothing is left, nothing is left later either.
pub proof fn lemma_rest_stays_zero(k: nat, w: nat, i: nat, j: nat)
    requires
        w >= 1,
        i <= j,
        wnaf_rest(k, w, i) == 0,
    ensures
        wnaf_rest(k, w, j) == 0,
        wnaf(k, w, j) == 0,
    decreases j,
{
    if j > i {
        lemma_rest_stays_zero(k, w, i, (j - 1) as nat);
    }
}

/// Where `k` is below a bound `n` that is at least `2^w`, so is what is left
/// after any number of digits.
pub proof fn lemma_rest_below(k: nat, w: nat, n: nat, j: nat)
    requires
        w >= 1,
        k < n,
        n >= pow2(w),
    ensures
        wnaf_rest(k, w, j) < n,
    decreases j,
{
    if j > 0 {
        lemma_rest_below(k, w, n, (j - 1) as nat);
        lemma_rest_step(k, w, (j - 1) as nat);
        lemma_digit(wnaf_rest(k, w, (j - 1) as nat), w);
    }
}

/// The digits from `j` on, together with what is left after the last of
/// them, make up what is left before digit `j`.
pub proof fn lemma_digits_value(digits: Seq<i8>, k: nat, w: nat, j: nat)
    requires
        w >= 1,
        j <= digits.len(),
        forall|i: int| 0 <= i < digits.len() ==> digits[i] as int == wnaf(k, w, i as nat),
    ensures
        wnaf_rest(k, w, j) == digits_value(digits, j as int) + pow2((digits.len() - j) as nat)
            * wnaf_rest(k, w, digits.len()),
    decreases digits.len() - j,
{
    let len = digits.len();
    let last = wnaf_rest(k, w, len) as int;
    if j == len {
        lemma2_to64();
        assert(pow2(0) * last == last);
    } else {
        lemma_digits_value(digits, k, w, j + 1);
        lemma_rest_step(k, w, j);
        lemma_pow2_unfold((len - j) as nat);
        let t = pow2((len - j - 1) as nat) as int;
        assert(digits[j as int] as int == wnaf(k, w, j));
        assert(digits_value(digits, j as int) == digits[j as int] as int + 2 * digits_value(
            digits,
            j as int + 1,
        ));
        assert(wnaf_rest(k, w, j + 1) == digits_value(digits, j as int + 1) + t * last);
        assert(2 * (t * last) == (2 * t) * last) by (nonlinear_arith);
        assert(pow2((len - j) as nat) * last == (2 * t) * last);
    }
}

/// The digits of the windowed non-adjacent form give the scalar back: where
/// `k` has at most `bits` bits and `digits` holds its first `bits + 1`
/// digits, and zeros after them, the sum of `digits[i] * 2^i` is `k`.
pub proof fn lemma_wnaf_reconstructs(digits: Seq<i8>, k: nat, w: nat, bits: nat)
    requires
        w >= 1,
        k < pow2(bits),
        bits < digits.len(),
        forall|i: int| 0 <= i <= bits ==> digits[i] as int == wnaf(k, w, i as nat),
        forall|i: int| bits < i < digits.len() ==> digits[i] == 0,
    ensures
        digits_value(digits, 0) == k,
{
    lemma_rest_ends(k, w, bits);
    assert forall|i: int| 0 <= i < digits.len() implies digits[i] as int == wnaf(k, w, i as nat) by {
        if i > bits {
            lemma_rest_stays_zero(k, w, bits + 1, i as nat);
        }
    }
    lemma_rest_stays_zero(k, w, bits + 1, digits.len());
    lemma_digits_value(digits, k, w, 0);
    assert(pow2(digits.len()) * 0 == 0);
}

/// A nonzero digit is followed by `w` zeros: the form is non-adjacent.
pub proof fn lemma_non_adjacent(k: nat, w: nat, j: nat, i: nat)
    requires
        w >= 1,
        wnaf(k, w, j) != 0,
        j < i <= j + w,
    ensures
        wnaf(k, w, i) == 0,
{
    lemma_digit(wnaf_rest(k, w, j), w);
    lemma_rest_step(k, w, j);
    let r = wnaf_rest(k, w, j);
    let d = wnaf(k, w, j);
    let p = pow2(w + 1) as int;
    lemma_pow2_unfold(w + 1);
    // what is left after digit j is a multiple of 2^w
    let q = (r - d) / p;
    lemma_fundamental_div_mod(r - d, p);
    assert(wnaf_rest(k, w, j + 1) == pow2(w) * q) by (nonlinear_arith)
        requires
            r - d == p * q,
            p == 2 * pow2(w),
            r - d == 2 * wnaf_rest(k, w, j + 1),
    ;
    lemma_multiple_of_pow2_has_zero_digits(k, w, j + 1, w, q, i);
}

/// Where what is left before digit `j` is a multiple of `2^e`, the next `e`
/// digits are zero.
proof fn lemma_multiple_of_pow2_has_zero_digits(k: nat, w: nat, j: nat, e: nat, q: int, i: nat)
    requires
        w >= 1,
        wnaf_rest(k, w, j) == pow2(e) * q,
        j <= i < j + e,
    ensures
        wnaf(k, w, i) == 0,
    decreases e,
{
    lemma_pow2_unfold(e);
    let t = pow2((e - 1) as nat) as int;
    let r = wnaf_rest(k, w, j);
    assert(r == 2 * (t * q)) by (nonlinear_arith)
        requires
            r == (2 * t) * q,
    ;
    lemma_digit(r, w);
    lemma_rest_step(k, w, j);
    if i > j {
        lemma_multiple_of_pow2_has_zero_digits(k, w, j + 1, (e - 1) as nat, q, i);
    }
}

/// Bit `i` of the number that the limbs stand for is bit `i % 64` of limb
/// `i / 64`, and zero beyond the last limb.
pub proof fn lemma_limb_bit(limbs: Seq<u64>, i: nat)
    ensures
        i / 64 < limbs.len() ==> bit_of(limbs_value(limbs), i) == (limbs[(i / 64) as int] as nat
            / pow2(i % 64)) % 2,
        i / 64 >= limbs.len() ==> bit_of(limbs_value(limbs), i) == 0,
    decreases limbs.len(),
{
    lemma2_to64();
    lemma_pow2_pos(i);
    let v = limbs_value(limbs) as int;
    if limbs.len() == 0 {
        vstd::arithmetic::div_mod::lemma_div_basics_1(pow2(i) as int);
    } else {
        let s0 = limbs[0] as int;
        let rest = limbs_value(limbs.drop_first()) as int;
        let b = pow2(64) as int;
        assert(v == s0 + b * rest);
        if i < 64 {
            let c = pow2(i) as int;
            let e = pow2((64 - i) as nat) as int;
            let e2 = pow2((63 - i) as nat) as int;
            lemma_pow2_adds(i, (64 - i) as nat);
            lemma_pow2_unfold((64 - i) as nat);
            let m = e * rest;
            assert(v == s0 + m * c) by (nonlinear_arith)
                requires
                    v == s0 + b * rest,
                    b == c * e,
                    m == e * rest,
            ;
            assert(m == 2 * (e2 * rest)) by (nonlinear_arith)
                requires
                    m == e * rest,
                    e == 2 * e2,
            ;
            vstd::arithmetic::div_mod::lemma_hoist_over_denominator(s0, m, c as nat);
            assert(v / c == s0 / c + m);
        } else {
            let d = pow2((i - 64) as nat) as int;
            lemma_pow2_pos((i - 64) as nat);
            lemma_pow2_adds(64, (i - 64) as nat);
            lemma_fundamental_div_mod_converse(v, b, rest, s0);
            lemma_div_denominator(v, b, d);
            assert(v / (pow2(i) as int) == rest / d);
            lemma_limb_bit(limbs.drop_first(), (i - 64) as nat);
            assert((i - 64) / 64 == i / 64 - 1);
            assert((i - 64) % 64 == i % 64);
            if i / 64 < limbs.len() {
                assert(limbs.drop_first()[(i / 64) as int - 1] == limbs[(i / 64) as int]);
            }
        }
    }
}

/// The lowest `e` bits of the number that the limbs stand for are those of
/// the first limb, for `e` up to 64.
pub proof fn lemma_limbs_low_bits(limbs: Seq<u64>, e: nat)
    requires
        limbs.len() > 0,
        e <= 64,
    ensures
        limbs_value(limbs) % pow2(e) == limbs[0] as nat % pow2(e),
{
    let s0 = limbs[0] as int;
    let rest = limbs_value(limbs.drop_first()) as int;
    let b = pow2(64) as int;
    let c = pow2(e) as int;
    let t = pow2((64 - e) as nat) as int;
    lemma_pow2_pos(e);
    lemma_pow2_adds(e, (64 - e) as nat);
    assert(s0 + b * rest == c * (t * rest) + s0) by (nonlinear_arith)
        requires
            b == c * t,
    ;
    vstd::arithmetic::div_mod::lemma_mod_multiples_vanish(t * rest, s0, c);
}

/// Bit `i` of the number that the limbs stand for.
pub fn is_bit_set(limbs: &[u64; MAX_LIMBS], i: usize) -> (b: u32)
    ensures
        b == bit_of(limbs_value(limbs@), i as nat),
{
    let q: usize = i / 64;
    proof {
        lemma_limb_bit(limbs@, i as nat);
    }
    if q < MAX_LIMBS {
        let shift: u64 = (i % 64) as u64;
        proof {
            vstd::bits::lemma_u64_shr_is_div(limbs[q as int], shift);
        }
        ((limbs[q] >> shift) % 2) as u32
    } else {
        0
    }
}

/// Recodes a scalar into its windowed non-adjacent form for window width
/// `w`.
///
/// The first `order_bits + 1` entries of the result are the digits, least
/// significant first; the entries after them are zero. Each digit is zero or
/// odd and lies strictly between `-2^w` and `2^w`, and a digit that is not
/// zero is followed by `w` zeros. Where the scalar has at most `order_bits`
/// bits, the digits stand for it: the sum of `out[i] * 2^i` is the scalar.
pub fn recode_wnaf(scalar: &[u64; MAX_LIMBS], order_bits: usize, w: u32) -> (out: [i8; WNAF_LEN])
    requires
        1 <= w <= 7,
        1 <= order_bits <= MAX_BITS,
    ensures
        forall|j: int|
            0 <= j <= order_bits ==> #[trigger] out[j] as int == wnaf(
                limbs_value(scalar@),
                w as nat,
                j as nat,
            ),
        forall|j: int| order_bits < j < WNAF_LEN ==> #[trigger] out[j] == 0,
        forall|j: int|
            0 <= j < WNAF_LEN ==> #[trigger] out[j] == 0 || (out[j] as int % 2 == 1 && -pow2(w as nat)
                < out[j] as int && (out[j] as int) < pow2(w as nat)),
        forall|j: int, i: int|
            0 <= j < i <= j + w && i < WNAF_LEN && #[trigger] out[j] != 0 ==> #[trigger] out[i] == 0,
        limbs_value(scalar@) < pow2(order_bits as nat) ==> digits_value(out@, 0) == limbs_value(
            scalar@,
        ),
{
    let ghost k = limbs_value(scalar@);
    let ghost wn = w as nat;
    proof {
        lemma2_to64();
        lemma_pow2_unfold(wn + 1);
        lemma_pow2_strictly_increases(wn, 8);
        vstd::bits::lemma_u32_shl_is_mul(1, w);
    }
    let bit: u32 = 1u32 << w;
    let next_bit: u32 = 2 * bit;
    let mut window_val: u32 = (scalar[0] % (next_bit as u64)) as u32;
    let mut out: [i8; WNAF_LEN] = [0i8; WNAF_LEN];
    proof {
        lemma_limbs_low_bits(scalar@, wn + 1);
        lemma_fundamental_div_mod(k as int, pow2(wn + 1) as int);
        assert(pow2(0 + wn + 1) == pow2(wn + 1));
    }
    let mut j: usize = 0;
    while j <= order_bits
        invariant
            1 <= w <= 7,
            wn == w as nat,
            1 <= order_bits <= MAX_BITS,
            k == limbs_value(scalar@),
            bit == pow2(wn),
            next_bit == pow2(wn + 1),
            next_bit == 2 * bit,
            2 <= bit <= 128,
            0 <= j <= order_bits + 1,
            window_val <= next_bit,
            wnaf_rest(k, wn, j as nat) == window_val as int + next_bit as int * (k as int / (pow2(
                j as nat + wn + 1,
            ) as int)),
            forall|i: int| 0 <= i < j ==> #[trigger] out[i] as int == wnaf(k, wn, i as nat),
            forall|i: int| j <= i < WNAF_LEN ==> #[trigger] out[i] == 0,
        decreases order_bits + 1 - j,
    {
        let ghost r = wnaf_rest(k, wn, j as nat);
        let ghost t = k as int / (pow2(j as nat + wn + 1) as int);
        let ghost old_window = window_val as int;
        let mut digit: i32 = 0;
        if window_val % 2 == 1 {
            if window_val >= bit {
                digit = window_val as i32 - next_bit as i32;
            } else {
                digit = window_val as i32;
            }
            window_val = (window_val as i32 - digit) as u32;
        }
        let next: u32 = is_bit_set(scalar, j + w as usize + 1);
        proof {
            let h = bit as int;
            let p = next_bit as int;
            assert(next <= 1);
            assert(bit * next <= bit) by (nonlinear_arith)
                requires
                    next <= 1,
            ;
            assert(window_val == old_window - digit);
            assert(window_val == 0 || window_val == p || (digit == 0 && window_val <= p));
            assert(r == old_window + p * t);
            assert(r == old_window + 2 * (h * t)) by (nonlinear_arith)
                requires
                    r == old_window + p * t,
                    p == 2 * h,
            ;
            if old_window % 2 == 1 {
                assert(old_window < p);
                assert(r == t * p + old_window) by (nonlinear_arith)
                    requires
                        r == old_window + p * t,
                ;
                lemma_fundamental_div_mod_converse(r as int, p, t, old_window);
            }
            assert(digit == wnaf_digit(r, wn));
            lemma_rest_step(k, wn, j as nat);
            // the next bit of the scalar enters the window from above
            let e = j as nat + wn + 1;
            lemma_pow2_pos(e);
            lemma_pow2_unfold(e + 1);
            lemma_div_denominator(k as int, pow2(e) as int, 2);
            let t2 = k as int / (pow2(e + 1) as int);
            assert(t2 == t / 2);
            assert(t == next + 2 * t2);
            assert(pow2(j as nat + 1 + wn + 1) == pow2(e + 1));
            assert(wnaf_rest(k, wn, j as nat + 1) == (old_window - digit) / 2 + h * next + p * t2)
                by (nonlinear_arith)
                requires
                    r == old_window + 2 * (h * t),
                    r == digit + 2 * wnaf_rest(k, wn, j as nat + 1),
                    t == next + 2 * t2,
                    p == 2 * h,
                    (old_window - digit) % 2 == 0,
            ;
        }
        out[j] = digit as i8;
        window_val = window_val / 2 + bit * next;
        j += 1;
    }
    proof {
        assert forall|i: int| 0 <= i < WNAF_LEN implies #[trigger] out[i] == 0 || (out[i] as int % 2 == 1
            && -pow2(wn) < out[i] as int && (out[i] as int) < pow2(wn)) by {
            if i <= order_bits {
                lemma_digit(wnaf_rest(k, wn, i as nat), wn);
            }
        }
        assert forall|j: int, i: int|
            0 <= j < i <= j + w && i < WNAF_LEN && #[trigger] out[j] != 0 implies #[trigger] out[i]
                == 0 by {
            if i <= order_bits {
                lemma_non_adjacent(k, wn, j as nat, i as nat);
            }
        }
        if k < pow2(order_bits as nat) {
            lemma_wnaf_reconstructs(out@, k, wn, order_bits as nat);
        }
    }
    out
}

} // verus!
