use zkicao::cert::{build_dsc_tbs, public_key_offset_in_spki, subject_public_key_info};
use zkicao::der;

#[test]
fn offsets_land_on_the_fields_a_verifier_reads() {
    let x: Vec<u8> = (0..32).map(|i| i as u8 + 1).collect();

    let y: Vec<u8> = (0..32).map(|i| i as u8 + 80).collect();

    let certificate = build_dsc_tbs(&x, &y, "170101000000Z", "301231235959Z");

    assert_eq!(certificate.tbs[0], der::TAG_SEQUENCE);

    assert!(certificate.public_key_offset > certificate.not_after_offset);

    assert!(certificate.not_before_offset < certificate.not_after_offset);
}

#[test]
fn the_offsets_hold_the_times_and_the_point() {
    let x = vec![0x11u8; 32];

    let y = vec![0x22u8; 32];

    let certificate = build_dsc_tbs(&x, &y, "170101000000Z", "301231235959Z");

    let tbs = &certificate.tbs;

    let before = certificate.not_before_offset;

    assert_eq!(tbs[before], 0x17);

    assert_eq!(&tbs[before + 2..before + 15], b"170101000000Z");

    let after = certificate.not_after_offset;

    assert_eq!(&tbs[after + 2..after + 15], b"301231235959Z");

    // The BIT STRING: no unused bits, then the uncompressed point.
    let key = certificate.public_key_offset;

    assert_eq!(tbs[key], 0x03);

    assert_eq!(&tbs[key + 2..key + 4], &[0x00, 0x04]);

    assert_eq!(&tbs[key + 4..key + 36], &x[..]);

    assert_eq!(&tbs[key + 36..key + 68], &y[..]);
}

#[test]
fn a_public_key_info_puts_the_point_after_the_algorithm() {
    let x = vec![1u8; 32];

    let y = vec![2u8; 32];

    let spki = subject_public_key_info(&x, &y);

    assert_eq!(spki.len(), 91);

    assert_eq!(&spki[..2], &[0x30, 89]);

    let offset = public_key_offset_in_spki(&spki);

    assert_eq!(offset, 23);

    assert_eq!(spki[offset], 0x03);

    assert_eq!(spki[offset + 3], 0x04);
}

#[test]
fn a_p256_certificate_puts_its_fields_at_fixed_positions() {
    let x = vec![0x33u8; 32];

    let y = vec![0x44u8; 32];

    let certificate = build_dsc_tbs(&x, &y, "170101000000Z", "301231235959Z");

    // A three byte header, then version, serial, algorithm and issuer.
    assert_eq!(certificate.tbs.len(), 218);

    assert_eq!(certificate.not_before_offset, 64);

    assert_eq!(certificate.not_after_offset, 79);

    // The subject public key info starts at 127; its bit string 23 bytes in.
    assert_eq!(certificate.public_key_offset, 150);
}

#[test]
fn a_long_point_moves_the_bit_string_one_byte_on() {
    let x = vec![5u8; 52];

    let y = vec![6u8; 52];

    let spki = subject_public_key_info(&x, &y);

    assert_eq!(&spki[..3], &[0x30, 0x81, 129]);

    let offset = public_key_offset_in_spki(&spki);

    assert_eq!(offset, 24);

    assert_eq!(&spki[offset..offset + 4], &[0x03, 106, 0x00, 0x04]);

    assert_eq!(&spki[offset + 4..offset + 56], &x[..]);

    assert_eq!(&spki[offset + 56..], &y[..]);
}
