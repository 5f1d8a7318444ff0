use zkicao::der;
use zkicao::der::{
    encode_length, integer_to_fixed, integer_u8, null, octet_string, oid, read, sequence, tlv,
    TAG_INTEGER, TAG_NULL, TAG_OCTET_STRING, TAG_OID, TAG_SEQUENCE, TAG_SET,
};

#[test]
fn lengths_use_the_shortest_form() {
    assert_eq!(encode_length(5), vec![5]);

    assert_eq!(encode_length(0x80), vec![0x81, 0x80]);

    assert_eq!(encode_length(300), vec![0x82, 0x01, 0x2c]);
}

#[test]
fn reads_back_what_it_writes() {
    let encoded = sequence(&[integer_u8(1), octet_string(&[0xaa, 0xbb])]);

    let outer = read(&encoded, 0);

    assert_eq!(outer.tag, TAG_SEQUENCE);

    assert_eq!(outer.total_len, encoded.len());

    let inner = read(outer.content, 0);

    assert_eq!(inner.tag, TAG_INTEGER);

    assert_eq!(inner.content, &[1]);
}

#[test]
fn fixed_width_integers_drop_the_sign_byte() {
    assert_eq!(integer_to_fixed(&[0x00, 0xff], 4), vec![0, 0, 0, 0xff]);

    assert_eq!(integer_to_fixed(&[0x7f], 2), vec![0, 0x7f]);
}

#[test]
fn lengths_at_the_form_boundaries() {
    assert_eq!(encode_length(0), vec![0]);

    assert_eq!(encode_length(0x7f), vec![0x7f]);

    assert_eq!(encode_length(0xff), vec![0x81, 0xff]);

    assert_eq!(encode_length(0x100), vec![0x82, 0x01, 0x00]);

    assert_eq!(encode_length(0xffff), vec![0x82, 0xff, 0xff]);
}

#[test]
fn writes_each_universal_type_with_its_tag() {
    assert_eq!(null(), vec![TAG_NULL, 0]);

    assert_eq!(integer_u8(7), vec![TAG_INTEGER, 1, 7]);

    assert_eq!(octet_string(&[1, 2]), vec![TAG_OCTET_STRING, 2, 1, 2]);

    assert_eq!(oid(&[0x55, 0x04, 0x03]), vec![TAG_OID, 3, 0x55, 0x04, 0x03]);

    assert_eq!(der::set(&[null()]), vec![TAG_SET, 2, TAG_NULL, 0]);

    assert_eq!(tlv(0x61, &[0; 200])[..3], [0x61, 0x81, 200]);
}

#[test]
fn reads_a_long_form_length() {
    let encoded = octet_string(&[0x11; 300]);

    let t = read(&encoded, 0);

    assert_eq!(t.tag, TAG_OCTET_STRING);

    assert_eq!(t.header_len, 4);

    assert_eq!(t.content.len(), 300);

    assert_eq!(t.total_len, 304);
}

#[test]
fn a_single_zero_stays_a_digit() {
    assert_eq!(integer_to_fixed(&[0x00], 2), vec![0, 0]);

    assert_eq!(integer_to_fixed(&[0x01, 0x02], 2), vec![0x01, 0x02]);
}
