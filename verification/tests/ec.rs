use zkicao::der;
use zkicao::ec::{
    is_greater_than_half, normalize_s, p256, parse_signature, sha256, shift_right_one,
    uncompressed_point, P256_ORDER,
};

// n/2 for P-256 is
// 0x7fffffff800000007fffffffffffffffde737d56d38bcf4279dce5617e3192a8.
#[test]
fn halving_the_order_matches_a_known_value() {
    let half = shift_right_one(p256().order);

    let expected: [u8; 32] = [
        0x7f, 0xff, 0xff, 0xff, 0x80, 0x00, 0x00, 0x00, 0x7f, 0xff, 0xff, 0xff, 0xff, 0xff, 0xff,
        0xff, 0xde, 0x73, 0x7d, 0x56, 0xd3, 0x8b, 0xcf, 0x42, 0x79, 0xdc, 0xe5, 0x61, 0x7e, 0x31,
        0x92, 0xa8,
    ];

    assert_eq!(half, expected);
}

#[test]
fn low_s_is_left_alone_and_high_s_is_flipped() {
    let mut low = vec![0u8; 32];

    low[0] = 0x01;

    assert_eq!(normalize_s(&low, p256().order), low);

    let mut high = vec![0xffu8; 32];

    high[0] = 0xfe;

    let flipped = normalize_s(&high, p256().order);

    assert_ne!(flipped, high);

    assert!(!is_greater_than_half(&flipped, p256().order));
}

#[test]
fn flipping_subtracts_from_the_order() {
    // n - (n - 1) = 1
    let mut high = P256_ORDER.to_vec();

    high[31] -= 1;

    let flipped = normalize_s(&high, &P256_ORDER);

    let mut one = vec![0u8; 32];

    one[31] = 1;

    assert_eq!(flipped, one);

    // Normalizing again leaves a low s alone.
    assert_eq!(normalize_s(&flipped, &P256_ORDER), flipped);
}

#[test]
fn half_the_order_itself_is_low() {
    let half = shift_right_one(&P256_ORDER);

    assert!(!is_greater_than_half(&half, &P256_ORDER));

    let mut above = half.clone();

    above[31] += 1;

    assert!(is_greater_than_half(&above, &P256_ORDER));
}

#[test]
fn digests_with_sha256() {
    let digest = sha256(b"abc");

    assert_eq!(
        digest,
        vec![
            0xba, 0x78, 0x16, 0xbf, 0x8f, 0x01, 0xcf, 0xea, 0x41, 0x41, 0x40, 0xde, 0x5d, 0xae,
            0x22, 0x23, 0xb0, 0x03, 0x61, 0xa3, 0x96, 0x17, 0x7a, 0x9c, 0xb4, 0x10, 0xff, 0x61,
            0xf2, 0x00, 0x15, 0xad
        ]
    );
}

#[test]
fn reads_a_der_signature_at_the_curve_width() {
    // r has a sign byte, s is short and high.
    let mut r = vec![0x00, 0x80];

    r.extend(vec![0x01; 31]);

    let mut s = vec![0xffu8; 32];

    s[0] = 0xfe;

    let encoded = der::sequence(&[der::tlv(der::TAG_INTEGER, &r), der::tlv(der::TAG_INTEGER, &s)]);

    let signature = parse_signature(&encoded, &p256()).expect("a well formed signature");

    assert_eq!(signature.r.len(), 32);

    assert_eq!(signature.r[0], 0x80);

    assert_eq!(signature.s, normalize_s(&s, &P256_ORDER));

    assert!(!is_greater_than_half(&signature.s, &P256_ORDER));
}

#[test]
fn refuses_what_is_not_a_signature() {
    assert!(parse_signature(&der::octet_string(&[1, 2, 3]), &p256()).is_none());

    assert!(parse_signature(&[0x30], &p256()).is_none());

    let wide = der::sequence(&[
        der::tlv(der::TAG_INTEGER, &[0x01; 33]),
        der::tlv(der::TAG_INTEGER, &[0x01]),
    ]);

    assert!(parse_signature(&wide, &p256()).is_none());
}

#[test]
fn takes_the_point_from_the_end_of_a_key() {
    let mut spki = vec![0x30, 0x59, 0xaa, 0xbb, 0x04];

    spki.extend(vec![0x11; 32]);

    spki.extend(vec![0x22; 32]);

    let (x, y) = uncompressed_point(&spki, 32).expect("an uncompressed point");

    assert_eq!(x, vec![0x11; 32]);

    assert_eq!(y, vec![0x22; 32]);

    spki[4] = 0x02;

    assert!(uncompressed_point(&spki, 32).is_none());
}
