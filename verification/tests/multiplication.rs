use ec_vartime::curve::CurveOps;
use ec_vartime::curve::InOut;
use ec_vartime::elem::Elem;
use ec_vartime::elem::Scalar;
use ec_vartime::model::bit_length;
use ec_vartime::model::is_prime_number;
use ec_vartime::model::make_elem;
use ec_vartime::model::Residue;
use ec_vartime::model::ResidueCurve;
use ec_vartime::vartime::domain_one;
use ec_vartime::vartime::odd_multiples;
use ec_vartime::vartime::point_mul_vartime;
use ec_vartime::vartime::points_mul_vartime;
use ec_vartime::vartime::table_entry;
use ec_vartime::vartime::PointVartime;

fn scalar(k: u64) -> Scalar {
    Scalar { limbs: [k, 0, 0, 0, 0, 0] }
}

fn is_zero(e: &Elem) -> bool {
    e.limbs.iter().all(|l| *l == 0)
}

fn triple_of(p: &(Elem, Elem)) -> [Elem; 3] {
    [p.0, p.1, make_elem(2)]
}

#[test]
fn model_takes_odd_primes_only() {
    assert!(ResidueCurve::new(7, true).is_some());
    assert!(ResidueCurve::new(3, true).is_some());
    assert!(ResidueCurve::new(2147483647, false).is_some());
    assert!(ResidueCurve::new(0, true).is_none());
    assert!(ResidueCurve::new(1, true).is_none());
    assert!(ResidueCurve::new(2, true).is_none());
    assert!(ResidueCurve::new(9, true).is_none());
    assert!(ResidueCurve::new(49, true).is_none());
    assert!(ResidueCurve::new(2147483647 * 3, true).is_none());
    assert_eq!(ResidueCurve::new(7, true).unwrap().modulus(), 7);
}

#[test]
fn primes_are_told_from_composites() {
    let primes = [2u64, 3, 5, 7, 11, 13, 97, 7919, 2147483647];
    let others = [0u64, 1, 4, 6, 9, 15, 25, 91, 7917, 62710561, 2147483649];
    assert!(primes.iter().all(|q| is_prime_number(*q)));
    assert!(others.iter().all(|q| !is_prime_number(*q)));
}

#[test]
fn bit_length_is_the_position_of_the_top_bit() {
    assert_eq!(bit_length(1), 1);
    assert_eq!(bit_length(2), 2);
    assert_eq!(bit_length(3), 2);
    assert_eq!(bit_length(4), 3);
    assert_eq!(bit_length(255), 8);
    assert_eq!(bit_length(256), 9);
    assert_eq!(bit_length(u64::MAX), 64);
}

#[test]
fn model_reports_the_bit_length_of_its_order() {
    assert_eq!(ResidueCurve::new(3, true).unwrap().order_bits(), 2);
    assert_eq!(ResidueCurve::new(7, true).unwrap().order_bits(), 3);
    assert_eq!(ResidueCurve::new(17, true).unwrap().order_bits(), 5);
    assert_eq!(ResidueCurve::new(2147483647, true).unwrap().order_bits(), 31);
    assert_eq!(ResidueCurve::new(7, true).unwrap().num_limbs(), 1);
}

#[test]
fn one_in_the_domain_is_two() {
    let ops = ResidueCurve::new(7, true).unwrap();
    assert_eq!(domain_one(&ops).limbs, [2, 0, 0, 0, 0, 0]);
    let ops = ResidueCurve::new(3, true).unwrap();
    assert_eq!(ops.rr(), [1, 0, 0, 0, 0, 0]);
    assert_eq!(domain_one(&ops).limbs, [2, 0, 0, 0, 0, 0]);
}

#[test]
fn field_product_is_halved() {
    let ops = ResidueCurve::new(7, true).unwrap();
    // 3 * 5 / 2 = 15 * 4 = 60 = 4 (mod 7)
    let mut a = make_elem(3);
    ops.elem_mul(&mut a, &make_elem(5));
    assert_eq!(a.limbs, [4, 0, 0, 0, 0, 0]);
    // one is neutral: 5 * 2 / 2 = 5
    let mut b = make_elem(5);
    ops.elem_mul(&mut b, &domain_one(&ops));
    assert_eq!(b.limbs, [5, 0, 0, 0, 0, 0]);
}

#[test]
fn field_negation_wraps_at_the_modulus() {
    let ops = ResidueCurve::new(7, true).unwrap();
    let mut a = make_elem(3);
    ops.elem_negate_vartime(&mut a);
    assert_eq!(a.limbs, [4, 0, 0, 0, 0, 0]);
    let mut z = make_elem(0);
    ops.elem_negate_vartime(&mut z);
    assert_eq!(z.limbs, [0, 0, 0, 0, 0, 0]);
}

#[test]
fn accumulator_starts_at_infinity() {
    let ops = ResidueCurve::new(7, true).unwrap();
    let acc = PointVartime::new_at_infinity(&ops);
    assert!(acc.value.is_none());
}

#[test]
fn doubling_infinity_changes_nothing() {
    let ops = ResidueCurve::new(7, true).unwrap();
    let mut acc = PointVartime::new_at_infinity(&ops);
    acc.double_assign();
    assert!(acc.value.is_none());
}

#[test]
fn adding_to_infinity_stores_the_triple() {
    let ops = ResidueCurve::new(7, true).unwrap();
    let mut acc = PointVartime::new_at_infinity(&ops);
    let x = make_elem(6);
    let y = make_elem(3);
    let z = make_elem(2);
    acc.add_assign(&x, &y, &z);
    let value = acc.value.unwrap();
    assert_eq!(value[0].limbs, x.limbs);
    assert_eq!(value[1].limbs, y.limbs);
    assert_eq!(value[2].limbs, z.limbs);
}

#[test]
fn accumulator_adds_and_doubles() {
    let ops = ResidueCurve::new(7, true).unwrap();
    let mut acc = PointVartime::new_at_infinity(&ops);
    let p = triple_of(&ops.affine(3));
    acc.add_assign(&p[0], &p[1], &p[2]);
    acc.double_assign();
    assert_eq!(ops.residue(&acc.value.unwrap()), 6);
    acc.add_assign(&p[0], &p[1], &p[2]);
    assert_eq!(ops.residue(&acc.value.unwrap()), 2);
    acc.double_assign();
    assert_eq!(ops.residue(&acc.value.unwrap()), 4);
}

#[test]
fn point_operations_write_where_they_are_told() {
    let ops = ResidueCurve::new(11, true).unwrap();
    let p = triple_of(&ops.affine(4));
    let q = triple_of(&ops.affine(9));
    let mut out = [Elem::zero(); 3];
    ops.point_double(InOut::OutOfPlace { output: &mut out, input: &p });
    assert_eq!(ops.residue(&out), 8);
    assert_eq!(ops.residue(&p), 4);
    ops.point_double(InOut::InPlace(&mut out));
    assert_eq!(ops.residue(&out), 5);
    let mut sum = [Elem::zero(); 3];
    ops.points_add_vartime(InOut::OutOfPlace { output: &mut sum, input: &p }, &q[0], &q[1], &q[2]);
    assert_eq!(ops.residue(&sum), 2);
    ops.points_add_vartime(InOut::InPlace(&mut sum), &q[0], &q[1], &q[2]);
    assert_eq!(ops.residue(&sum), 0);
}

#[test]
fn table_holds_the_odd_multiples() {
    let ops = ResidueCurve::new(101, false).unwrap();
    let g = ops.affine(7);
    let table = odd_multiples(&ops, &g.0, &g.1);
    for i in 0..8u64 {
        assert_eq!(ops.residue(&table[i as usize]), (2 * i + 1) * 7 % 101);
    }
    assert_eq!(table[0][0].limbs, g.0.limbs);
    assert_eq!(table[0][1].limbs, g.1.limbs);
    assert_eq!(table[0][2].limbs, [2, 0, 0, 0, 0, 0]);
}

#[test]
fn digit_picks_its_odd_multiple() {
    let ops = ResidueCurve::new(101, false).unwrap();
    let g = ops.affine(7);
    let table = odd_multiples(&ops, &g.0, &g.1);
    let mut d: i8 = -15;
    while d <= 15 {
        let entry = table_entry(&ops, &table, d);
        let index = (d.unsigned_abs() >> 1) as usize;
        assert_eq!(ops.residue(&table[index]), (2 * index as u64 + 1) * 7 % 101);
        assert_eq!(ops.residue(&entry) as i64, (d as i64 * 7).rem_euclid(101));
        assert_eq!(entry[0].limbs, table[index][0].limbs);
        assert_eq!(entry[2].limbs, table[index][2].limbs);
        d += 2;
    }
}

#[test]
fn five_times_the_generator_of_a_group_of_order_seven() {
    let ops = ResidueCurve::new(7, true).unwrap();
    let g = ops.affine(1);
    let product = point_mul_vartime(&ops, &scalar(5), &g);
    // G + G + G + G + G
    let mut sum = triple_of(&g);
    for _ in 0..4 {
        ops.points_add_vartime(InOut::InPlace(&mut sum), &g.0, &g.1, &make_elem(2));
    }
    assert_eq!(ops.residue(&product), ops.residue(&sum));
    assert_eq!(ops.residue(&product), 5);
}

#[test]
fn zero_times_a_point_is_the_zero_triple() {
    let ops = ResidueCurve::new(7, true).unwrap();
    let product = point_mul_vartime(&ops, &scalar(0), &ops.affine(1));
    assert!(is_zero(&product[0]) && is_zero(&product[1]) && is_zero(&product[2]));
    let ops = ResidueCurve::new(2147483647, false).unwrap();
    let product = point_mul_vartime(&ops, &scalar(0), &ops.affine(12345));
    assert!(is_zero(&product[0]) && is_zero(&product[1]) && is_zero(&product[2]));
}

#[test]
fn three_g_plus_four_times_two_g_is_eleven_g() {
    let ops = ResidueCurve::new(7, true).unwrap();
    let g = ops.affine(1);
    let p = ops.affine(2);
    let sum = points_mul_vartime(&ops, &scalar(3), &g, &scalar(4), &p);
    assert_eq!(sum, Residue(11 % 7));
}

#[test]
fn every_scalar_of_a_small_group() {
    for q in [3u64, 5, 7, 11, 13, 17, 19, 23, 31, 37, 101] {
        let ops = ResidueCurve::new(q, true).unwrap();
        for t in 0..q {
            let p = ops.affine(t);
            for k in 0..q {
                let product = point_mul_vartime(&ops, &scalar(k), &p);
                assert_eq!(ops.residue(&product), k * t % q);
            }
        }
    }
}

#[test]
fn scalars_beyond_the_order_with_complete_addition() {
    for q in [7u64, 11, 13, 101] {
        let ops = ResidueCurve::new(q, true).unwrap();
        let bits = ops.order_bits();
        for t in 0..q {
            let p = ops.affine(t);
            for k in q..(1u64 << bits) {
                let product = point_mul_vartime(&ops, &scalar(k), &p);
                assert_eq!(ops.residue(&product), k * t % q);
            }
        }
    }
}

#[test]
fn the_order_times_a_point_is_infinity_but_not_the_zero_triple() {
    let ops = ResidueCurve::new(7, true).unwrap();
    let product = point_mul_vartime(&ops, &scalar(7), &ops.affine(3));
    assert_eq!(ops.residue(&product), 0);
    assert_eq!(product[2].limbs, [2, 0, 0, 0, 0, 0]);
}

#[test]
fn every_scalar_with_incomplete_addition() {
    for q in [17u64, 19, 23, 101, 257] {
        let ops = ResidueCurve::new(q, false).unwrap();
        for t in 1..q {
            let p = ops.affine(t);
            for k in 0..q {
                let product = point_mul_vartime(&ops, &scalar(k), &p);
                assert_eq!(ops.residue(&product), k * t % q);
                assert_eq!(k == 0, is_zero(&product[2]));
            }
        }
    }
}

#[test]
fn large_scalars_in_a_large_group() {
    let q: u64 = 2147483647;
    let ops = ResidueCurve::new(q, false).unwrap();
    let p = ops.affine(1234567);
    for k in [1u64, 2, 3, 15, 16, 17, 1 << 30, q - 1, q - 2, 0x5555_5555, 0x2aaa_aaaa, 1_000_000_007] {
        let product = point_mul_vartime(&ops, &scalar(k), &p);
        assert_eq!(ops.residue(&product) as u128, k as u128 * 1234567 % q as u128);
    }
}

#[test]
fn multiplication_is_additive_in_the_scalar() {
    let q: u64 = 1009;
    let ops = ResidueCurve::new(q, true).unwrap();
    let p = ops.affine(123);
    for (a, b) in [(0u64, 0u64), (0, 5), (1, 1), (500, 508), (1008, 1008), (17, 992), (3, 700)] {
        let left = point_mul_vartime(&ops, &scalar((a + b) % q), &p);
        let mut right = point_mul_vartime(&ops, &scalar(a), &p);
        let other = point_mul_vartime(&ops, &scalar(b), &p);
        ops.points_add_vartime(InOut::InPlace(&mut right), &other[0], &other[1], &other[2]);
        assert_eq!(ops.residue(&left), ops.residue(&right));
        assert_eq!(ops.residue(&left), (a + b) * 123 % q);
    }
}

#[test]
fn two_times_a_point_is_its_double() {
    let ops = ResidueCurve::new(1009, false).unwrap();
    let p = ops.affine(777);
    let product = point_mul_vartime(&ops, &scalar(2), &p);
    let mut doubled = triple_of(&p);
    ops.point_double(InOut::InPlace(&mut doubled));
    assert_eq!(ops.residue(&product), ops.residue(&doubled));
    assert_eq!(ops.residue(&product), 545);
}

#[test]
fn dual_multiplication_is_the_sum_of_two_multiplications() {
    let q: u64 = 1009;
    let ops = ResidueCurve::new(q, false).unwrap();
    let g = ops.affine(5);
    let p = ops.affine(900);
    for (a, b) in [(1u64, 1u64), (2, 3), (1008, 1), (500, 600), (77, 1000)] {
        let both = points_mul_vartime(&ops, &scalar(a), &g, &scalar(b), &p);
        let mut first = point_mul_vartime(&ops, &scalar(a), &g);
        let second = point_mul_vartime(&ops, &scalar(b), &p);
        ops.points_add_vartime(InOut::InPlace(&mut first), &second[0], &second[1], &second[2]);
        assert_eq!(both, ops.new_point(&first[0], &first[1], &first[2]));
        assert_eq!(both, Residue((a * 5 + b * 900) % q));
    }
}

#[test]
fn affine_point_reduces_its_residue() {
    let ops = ResidueCurve::new(7, true).unwrap();
    let p = ops.affine(23);
    assert_eq!(p.1.limbs, [2, 0, 0, 0, 0, 0]);
    assert_eq!(ops.residue(&triple_of(&p)), 2);
}
