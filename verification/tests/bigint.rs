use zkicao::bigint::BigUint;

#[test]
fn reads_big_endian_bytes() {
    let value = BigUint::from_be_bytes(&[0x01, 0x00, 0x00, 0x00, 0x00]);

    assert_eq!(value.bit_length(), 33);

    assert_eq!(value, BigUint::power_of_two(32));
}

#[test]
fn divides_exactly() {
    let sixteen = BigUint::power_of_two(4);

    let four = BigUint::power_of_two(2);

    assert_eq!(sixteen.divide(&four), four);
}

#[test]
fn divides_with_a_remainder() {
    // floor(2^8 / 7) = 36
    let quotient = BigUint::power_of_two(8).divide(&BigUint::from_be_bytes(&[7]));

    assert_eq!(quotient.to_limbs_120(1), vec![36]);
}

#[test]
fn splits_into_limbs_of_120_bits() {
    let value = BigUint::power_of_two(120);

    assert_eq!(value.to_limbs_120(2), vec![0, 1]);

    let small = BigUint::from_be_bytes(&[0xff]);

    assert_eq!(small.to_limbs_120(2), vec![255, 0]);
}

// Dividing by a power of two is a shift, so floor(2^4102 / 2^2047) is 2^2055.
#[test]
fn computes_a_barrett_parameter_shape() {
    let numerator = BigUint::power_of_two(4102);

    let modulus = BigUint::power_of_two(2047);

    let redc = numerator.divide(&modulus);

    assert_eq!(redc.bit_length(), 2056);

    assert_eq!(redc, BigUint::power_of_two(2055));
}

#[test]
fn zero_has_no_bits() {
    assert_eq!(BigUint::zero().bit_length(), 0);

    assert_eq!(BigUint::from_be_bytes(&[]), BigUint::zero());

    assert_eq!(BigUint::from_be_bytes(&[0, 0, 0]), BigUint::zero());
}

#[test]
fn leading_zero_bytes_do_not_change_the_value() {
    assert_eq!(
        BigUint::from_be_bytes(&[0, 0, 0x12, 0x34]),
        BigUint::from_be_bytes(&[0x12, 0x34])
    );

    assert_eq!(BigUint::from_be_bytes(&[0x12, 0x34]).bit_length(), 13);
}

#[test]
fn divides_a_number_spanning_several_limbs() {
    // (2^64 + 5) / 3 = 6148914691236517207, remainder 0
    let value = BigUint::from_be_bytes(&[1, 0, 0, 0, 0, 0, 0, 0, 5]);

    let quotient = value.divide(&BigUint::from_be_bytes(&[3]));

    assert_eq!(quotient.to_limbs_120(1), vec![6148914691236517207]);

    // A divisor larger than the dividend gives zero.
    assert_eq!(
        BigUint::from_be_bytes(&[5]).divide(&BigUint::from_be_bytes(&[9])),
        BigUint::zero()
    );
}

#[test]
fn limbs_recombine_to_the_value() {
    let value = BigUint::power_of_two(250);

    let limbs = value.to_limbs_120(3);

    // 2^250 = 2^10 * 2^240: the third limb holds 2^10.
    assert_eq!(limbs, vec![0, 0, 1024]);
}

#[test]
fn a_power_of_two_reads_as_a_one_then_zero_bytes() {
    for k in [0usize, 1, 4, 5, 9] {
        let mut bytes = vec![1u8];
        bytes.extend(std::iter::repeat(0u8).take(k));

        let power = BigUint::power_of_two(8 * k);

        assert_eq!(power, BigUint::from_be_bytes(&bytes));

        assert_eq!(power.bit_length(), 8 * k + 1);
    }
}

#[test]
fn many_leading_zero_bytes_still_read_the_same_number() {
    let mut bytes = vec![0u8; 11];
    bytes.extend([0xde, 0xad, 0xbe, 0xef, 0x01]);

    assert_eq!(
        BigUint::from_be_bytes(&bytes),
        BigUint::from_be_bytes(&[0xde, 0xad, 0xbe, 0xef, 0x01])
    );

    assert_eq!(BigUint::from_be_bytes(&vec![0u8; 9]), BigUint::zero());
}
