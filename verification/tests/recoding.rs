use ec_vartime::wnaf::is_bit_set;
use ec_vartime::wnaf::recode_wnaf;

fn value_of(digits: &[i8]) -> i128 {
    let mut sum: i128 = 0;
    for (i, d) in digits.iter().enumerate() {
        sum += (*d as i128) << i;
    }
    sum
}

fn limbs_of(k: u128) -> [u64; 6] {
    [k as u64, (k >> 64) as u64, 0, 0, 0, 0]
}

#[test]
fn zero_recodes_to_zeros() {
    let digits = recode_wnaf(&limbs_of(0), 384, 4);
    assert!(digits.iter().all(|d| *d == 0));
}

#[test]
fn small_scalar_is_its_own_digit() {
    let digits = recode_wnaf(&limbs_of(5), 3, 4);
    assert_eq!(&digits[..4], &[5, 0, 0, 0]);
    assert!(digits[4..].iter().all(|d| *d == 0));
}

#[test]
fn seventeen_takes_a_negative_digit() {
    // 17 = 32 - 15
    let digits = recode_wnaf(&limbs_of(17), 5, 4);
    assert_eq!(&digits[..6], &[-15, 0, 0, 0, 0, 1]);
}

#[test]
fn even_scalar_starts_with_zero_digits() {
    // 14 = 7 * 2
    let digits = recode_wnaf(&limbs_of(14), 4, 4);
    assert_eq!(&digits[..5], &[0, 7, 0, 0, 0]);
}

#[test]
fn width_one_gives_plain_non_adjacent_form() {
    // 7 = 8 - 1
    let digits = recode_wnaf(&limbs_of(7), 3, 1);
    assert_eq!(&digits[..4], &[-1, 0, 0, 1]);
}

#[test]
fn digits_give_the_scalar_back_for_every_width() {
    let scalars: [u128; 9] = [
        0,
        1,
        2,
        15,
        16,
        0xdead_beef,
        0xffff_ffff_ffff_ffff,
        0x1_0000_0000_0000_0000,
        0x0123_4567_89ab_cdef_fedc_ba98_7654_3210,
    ];
    for w in 1..=7u32 {
        for k in scalars.iter() {
            let digits = recode_wnaf(&limbs_of(*k), 125, w);
            assert_eq!(value_of(&digits[..126]), *k as i128);
            assert!(digits[126..].iter().all(|d| *d == 0));
        }
    }
}

#[test]
fn digits_are_odd_and_within_the_window() {
    for w in 1..=7u32 {
        let digits = recode_wnaf(&limbs_of(0x0123_4567_89ab_cdef_fedc_ba98_7654_3210), 125, w);
        for d in digits.iter() {
            if *d != 0 {
                assert_eq!((*d as i32).rem_euclid(2), 1);
                assert!((*d as i32).abs() < (1 << w));
            }
        }
    }
}

#[test]
fn nonzero_digits_are_not_adjacent() {
    for w in 1..=7usize {
        let digits = recode_wnaf(&limbs_of(0xffff_ffff_ffff_ffff_ffff_ffff), 100, w as u32);
        for i in 0..101 {
            if digits[i] != 0 {
                for j in (i + 1)..=(i + w) {
                    assert_eq!(digits[j], 0);
                }
            }
        }
    }
}

#[test]
fn all_limbs_are_read() {
    let scalar: [u64; 6] = [0, 0, 0, 0, 0, 1 << 63];
    let digits = recode_wnaf(&scalar, 384, 4);
    for i in 0..385 {
        assert_eq!(digits[i], if i == 383 { 1 } else { 0 });
    }
}

#[test]
fn largest_scalar_needs_the_last_digit() {
    // 2^384 - 1: one at the top, minus one at the bottom
    let scalar: [u64; 6] = [u64::MAX; 6];
    let digits = recode_wnaf(&scalar, 384, 4);
    assert_eq!(digits[0], -1);
    assert_eq!(digits[384], 1);
    assert!(digits[1..384].iter().all(|d| *d == 0));
}

#[test]
fn bits_come_from_the_right_limb() {
    let scalar: [u64; 6] = [1, 2, 0, 0, 0, 1 << 63];
    assert_eq!(is_bit_set(&scalar, 0), 1);
    assert_eq!(is_bit_set(&scalar, 1), 0);
    assert_eq!(is_bit_set(&scalar, 64), 0);
    assert_eq!(is_bit_set(&scalar, 65), 1);
    assert_eq!(is_bit_set(&scalar, 383), 1);
    assert_eq!(is_bit_set(&scalar, 384), 0);
    assert_eq!(is_bit_set(&scalar, 1000), 0);
}
