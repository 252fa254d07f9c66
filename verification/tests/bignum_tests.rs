use scmrun::bignum::Big;

#[test]
fn from_i64_and_back_small() {
    let a = Big::from_i64(42);
    let b = Big::from_i64(42);
    assert!(a.eq_big(&b));
    assert!(!a.neg);
    assert_eq!(a.to_decimal(), b"42".to_vec());
}

#[test]
fn from_i64_negative() {
    let a = Big::from_i64(-7);
    assert!(a.neg);
    assert_eq!(a.to_decimal(), b"-7".to_vec());
}

#[test]
fn from_i64_extremes() {
    let min = Big::from_i64(i64::MIN);
    assert_eq!(min.to_decimal(), b"-9223372036854775808".to_vec());
    let max = Big::from_i64(i64::MAX);
    assert_eq!(max.to_decimal(), b"9223372036854775807".to_vec());
}

#[test]
fn add_with_carry_across_limbs() {
    let a = Big::from_i64(0xFFFF_FFFF);
    let one = Big::from_i64(1);
    let s = a.add_big(&one);
    assert_eq!(s.to_decimal(), b"4294967296".to_vec());
}

#[test]
fn add_opposite_signs_cancels() {
    let a = Big::from_i64(123456789);
    let b = Big::from_i64(-123456789);
    let s = a.add_big(&b);
    assert!(s.is_zero());
    assert_eq!(s.to_decimal(), b"0".to_vec());
}

#[test]
fn sub_crossing_zero() {
    let a = Big::from_i64(5);
    let b = Big::from_i64(9);
    let d = a.sub_big(&b);
    assert_eq!(d.to_decimal(), b"-4".to_vec());
}

#[test]
fn mul_exceeds_machine_words() {
    // (2^62) * (2^62) = 2^124, far outside any fixed-width integer
    let a = Big::from_i64(1i64 << 62);
    let p = a.mul_big(&a);
    assert_eq!(
        p.to_decimal(),
        b"21267647932558653966460912964485513216".to_vec()
    );
}

#[test]
fn mul_signs() {
    let a = Big::from_i64(-3);
    let b = Big::from_i64(4);
    assert_eq!(a.mul_big(&b).to_decimal(), b"-12".to_vec());
    assert_eq!(a.mul_big(&a).to_decimal(), b"9".to_vec());
}

#[test]
fn neg_of_zero_stays_zero() {
    let z = Big::zero();
    let n = z.neg_big();
    assert!(!n.neg);
    assert!(n.is_zero());
}

#[test]
fn eq_big_structural() {
    let a = Big::from_i64(1000);
    let b = Big::from_i64(1000);
    let c = Big::from_i64(-1000);
    assert!(a.eq_big(&b));
    assert!(!a.eq_big(&c));
}

#[test]
fn div_small_quotient_remainder() {
    let a = Big::from_i64(1234567).mag;
    let (q, r) = scmrun::bignum::div_small(&a, 10);
    // 1234567 = 123456 * 10 + 7
    assert_eq!(r, 7);
    let qb = Big { neg: false, mag: q };
    assert_eq!(qb.to_decimal(), b"123456".to_vec());
}
