use discrete_math::unit3::{
    bezout, bezout_with_gcd, fast_modular_exponentiation, gcd, least_res, lin_cong, mul_inv,
    mul_inv_with_gcd, prepare_affine, restore_affine, Affine,
};

#[test]
fn gcdt() {
    assert_eq!(8, gcd(72, 32).unwrap().0);
    assert!(gcd(72, 0).is_none());
}

#[test]
fn fltt() {
    assert_eq!(fast_modular_exponentiation(4, 20u32, 7).unwrap(), 2);
    assert_eq!(fast_modular_exponentiation(5, 6u32, 7).unwrap(), 1);
    assert_eq!(fast_modular_exponentiation(18, 18u32, 7).unwrap(), 1);
}

#[test]
fn benzoutt() {
    assert_eq!((8, -15), bezout(32, 17).unwrap());
    assert_eq!((-15, 8), bezout(17, 32).unwrap());
    assert_eq!((1, 0), bezout(17, 17).unwrap());
    assert_eq!((-9, 34), bezout(185, 49).unwrap());
    assert_eq!((5, -11), bezout(93, 42).unwrap());
    assert_eq!((-12, 29), bezout(70, 29).unwrap());
}

#[test]
fn mul_invt() {
    assert_eq!(1, mul_inv(1, 9).unwrap());
    assert_eq!(2, mul_inv(5, 9).unwrap());
    assert_eq!(8, mul_inv(5, 13).unwrap());
}

#[test]
fn lin_congt() {
    assert_eq!(6, lin_cong(5, 21, 9).unwrap());
    assert_eq!(4, lin_cong(11, 6, 38).unwrap());
    assert!(lin_cong(21, 14, 30).is_none());
    assert!(lin_cong(8, 24, 28).is_none());
}

#[test]
fn affinet() {
    let affine = Affine::new(7, 12).unwrap();

    let s = prepare_affine(&"IQZC".chars().collect::<Vec<char>>());

    println!("{:?}", s);

    let dec = affine.d_str(s);

    println!("{}", dec);
}

#[test]
fn gcd_table_rows() {
    let (g, rows) = gcd(32, 72).unwrap();
    assert_eq!(g, 8);
    assert_eq!(rows.len(), 2);
    assert_eq!((rows[0].a, rows[0].quotient, rows[0].b, rows[0].remainder), (72, 2, 32, 8));
    assert_eq!((rows[1].a, rows[1].quotient, rows[1].b, rows[1].remainder), (32, 4, 8, 0));
}

#[test]
fn gcd_smaller_divides_larger() {
    let (g, rows) = gcd(5, 35).unwrap();
    assert_eq!(g, 5);
    assert_eq!(rows.len(), 1);
}

#[test]
fn gcd_negative_numbers() {
    // remainders keep the sign of the dividend
    assert_eq!(gcd(-4, 6).unwrap().0, 2);
    assert_eq!(gcd(-4, -6).unwrap().0, -2);
    assert!(gcd(-3, 0).is_some());
    assert!(gcd(0, 5).is_none());
}

#[test]
fn gcd_extremes() {
    assert_eq!(gcd(i64::MIN, i64::MIN).unwrap().0, i64::MIN);
    assert_eq!(gcd(i64::MAX, 1).unwrap().0, 1);
}

#[test]
fn gcd_divides_and_is_greatest() {
    for (a, b) in [(462i64, 1071i64), (17, 5), (-12, 18), (100, 75)] {
        let g = gcd(a, b).unwrap().0;
        assert_eq!(a % g, 0);
        assert_eq!(b % g, 0);
    }
}

#[test]
fn bezout_identity_holds() {
    for (a, b) in [(240i64, 46i64), (46, 240), (-7, 3), (3, -7), (1_000_000_007, 998_244_353), (i64::MAX, 2)] {
        let g = gcd(a, b).unwrap().0;
        let (u, v) = bezout(a, b).unwrap();
        assert_eq!(a as i128 * u as i128 + b as i128 * v as i128, g as i128);
    }
}

#[test]
fn bezout_without_divisor() {
    assert!(bezout(5, 0).is_none());
    assert!(bezout(0, 0).is_none());
}

#[test]
fn bezout_with_gcd_on_table() {
    let table = gcd(185, 49).unwrap();
    assert_eq!(bezout_with_gcd(185, 49, table), (-9, 34));
}

#[test]
fn least_res_positive_modulus() {
    assert_eq!(least_res(-7, 3), 2);
    assert_eq!(least_res(7, 3), 1);
    assert_eq!(least_res(-9, 3), 0);
}

#[test]
fn least_res_negative_modulus() {
    // ((7 % -3) + -3) % -3 == (1 - 3) % -3 == -2
    assert_eq!(least_res(7, -3), -2);
}

#[test]
fn mul_inv_is_inverse() {
    for (a, m) in [(3i64, 11i64), (10, 17), (-4, 9), (123_456_789, 1_000_000_007)] {
        let i = mul_inv(a, m).unwrap();
        assert!(0 <= i && i < m);
        assert_eq!(((a as i128 * i as i128) % m as i128 + m as i128) % m as i128, 1);
    }
}

#[test]
fn mul_inv_without_inverse() {
    assert!(mul_inv(6, 9).is_none());
    assert!(mul_inv(0, 9).is_none());
}

#[test]
fn mul_inv_with_gcd_needs_one() {
    let table = gcd(6, 9).unwrap();
    assert!(mul_inv_with_gcd(6, 9, table).is_none());
    let table = gcd(5, 9).unwrap();
    assert_eq!(mul_inv_with_gcd(5, 9, table), Some(2));
}

#[test]
fn lin_cong_solves() {
    for (a, b, n) in [(5i64, 21i64, 9i64), (11, 6, 38), (7, -3, 10), (3, 4, 1)] {
        let x = lin_cong(a, b, n).unwrap();
        assert!(0 <= x && x < n);
        assert_eq!(((a * x - b) % n + n) % n, 0);
    }
}

#[test]
fn lin_cong_divisor_not_one() {
    // 2 divides 4, yet the reduced congruence has no answer
    assert!(lin_cong(2, 4, 6).is_none());
    assert!(lin_cong(0, 4, 0).is_none());
}

#[test]
fn fast_modular_exponentiation_cases() {
    assert_eq!(fast_modular_exponentiation(3, 200, 13), Some(9));
    // no prime - 1 as an exponent: negative modulus
    assert_eq!(fast_modular_exponentiation(3, 2, -5), None);
    // a negative base keeps its sign
    assert_eq!(fast_modular_exponentiation(-1, 1, 7), Some(-1));
}

#[test]
fn fast_exponentiation_matches_full_power() {
    // modulo a prime that does not divide the base, the reduced power agrees
    // with the full one
    for base in 0i64..30 {
        for exp in 0u32..40 {
            for prime in [2i64, 3, 5, 7, 11, 13] {
                if base % prime == 0 && exp > 0 && exp % (prime as u32 - 1) == 0 {
                    continue;
                }
                let full = (0..exp).fold(1i128, |acc, _| acc * base as i128 % prime as i128);
                assert_eq!(
                    fast_modular_exponentiation(base, exp, prime),
                    Some(full as i64)
                );
            }
        }
    }
    // a negative base gives a congruent, negative remainder: (-2)^5 = -32
    assert_eq!(fast_modular_exponentiation(-2, 5, 7), Some(-4));
    // the base a multiple of the prime and the exponent a positive multiple
    // of prime - 1: the reduced power is 0^0
    assert_eq!(fast_modular_exponentiation(7, 6, 7), Some(1));
}

#[test]
fn prepare_and_restore() {
    let s = prepare_affine(&"Hi, z!".chars().collect::<Vec<char>>());
    assert_eq!(s, vec![7, 8, 25]);
    assert_eq!(restore_affine(&[7, 8, 26, 25, 200]), vec!['H', 'I', 'Z']);
}

#[test]
fn affine_roundtrip() {
    let affine = Affine::new(7, 12).unwrap();
    let mut e = affine.e_str("Hello");
    let mut enc = Vec::new();
    while let Some(x) = e.next() {
        enc.push(x);
    }
    assert_eq!(enc, vec![9, 14, 11, 11, 6]);
    assert_eq!(affine.d_str(enc), "HELLO".to_string());
}

#[test]
fn affine_decrypt_stream() {
    let affine = Affine::new(7, 12).unwrap();
    let mut d = affine.decrypt(vec![8, 16, 25, 2]);
    let mut out = Vec::new();
    while let Some(x) = d.next() {
        out.push(x);
    }
    assert_eq!(out, vec![18, 8, 13, 6]);
    assert_eq!(affine.d_str(vec![8, 16, 25, 2]), "SING".to_string());
}

#[test]
fn affine_without_inverse() {
    assert!(Affine::new(13, 1).is_none());
    assert!(Affine::new(0, 1).is_none());
    // the divisor of -1 and 26 comes out as -1, not one
    assert!(Affine::new(-1, 3).is_none());
    assert!(Affine::new(-5, 3).is_some());
}

#[test]
fn affine_negative_values_wrap() {
    let affine = Affine::new(-5, -1).unwrap();
    // 'F' is 5: -5 * 5 - 1 = -26 leaves remainder 0 and comes back
    let mut e = affine.e_str("F");
    let x = e.next().unwrap();
    assert_eq!(x, 0);
    assert_eq!(e.next(), None);
    assert_eq!(affine.d_str(vec![x]), "F".to_string());
    // 'B' is 1: -5 * 1 - 1 = -6 wraps around as a byte and does not come back
    let mut e = affine.e_str("B");
    let y = e.next().unwrap();
    assert_eq!(y, 250);
    assert_eq!(affine.d_str(vec![y]), "H".to_string());
}
