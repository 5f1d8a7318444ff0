use zkicao::der;
use zkicao::ec;
use zkicao::icao::{
    build_dg1, build_dg15, build_security_object, build_signed_attributes, DataGroup,
    MRZ_TD1, MRZ_TD3, OID_SHA256, TAG_DG1, TAG_MRZ_DATA,
};

#[test]
fn dg1_wraps_the_mrz_in_its_template() {
    let dg1 = build_dg1(MRZ_TD3);

    assert_eq!(dg1[0], TAG_DG1);

    let outer = der::read(&dg1, 0);

    assert_eq!(&outer.content[0..2], TAG_MRZ_DATA);

    assert_eq!(outer.content[2] as usize, MRZ_TD3.len());

    assert_eq!(&outer.content[3..], MRZ_TD3.as_bytes());
}

#[test]
fn security_object_offsets_point_at_the_right_bytes() {
    let groups = vec![
        DataGroup {
            number: 1,
            content: build_dg1(MRZ_TD3),
        },
        DataGroup {
            number: 2,
            content: vec![0xaa; 64],
        },
    ];

    let sod = build_security_object(&groups);

    assert_eq!(sod.econtent[sod.oid_offset], der::TAG_OID);

    assert_eq!(sod.econtent[sod.oid_offset + 1] as usize, OID_SHA256.len());

    assert_eq!(
        &sod.econtent[sod.oid_offset + 2..sod.oid_offset + 2 + OID_SHA256.len()],
        OID_SHA256
    );

    for (number, offset) in &sod.dg_offsets {
        assert_eq!(sod.econtent[*offset], der::TAG_SEQUENCE);

        assert_eq!(sod.econtent[*offset + 1], 0x25);

        assert_eq!(sod.econtent[*offset + 4], *number);

        assert_eq!(sod.econtent[*offset + 5], der::TAG_OCTET_STRING);

        assert_eq!(sod.econtent[*offset + 6], 0x20);
    }
}

#[test]
fn signed_attributes_carry_the_econtent_digest() {
    let groups = vec![DataGroup {
        number: 1,
        content: build_dg1(MRZ_TD1),
    }];

    let sod = build_security_object(&groups);

    let attrs = build_signed_attributes(&sod.econtent);

    let expected = ec::sha256(&sod.econtent);

    assert_eq!(
        &attrs.bytes[attrs.digest_offset..attrs.digest_offset + 32],
        &expected[..]
    );
}

/// Builds a Security Object covering `count` data groups, which is what
/// decides how large a buffer a circuit needs.
fn econtent_len(count: u8, hash_len: usize) -> usize {
    let groups: Vec<DataGroup> = (1..=count)
        .map(|number| DataGroup {
            number,
            content: vec![number; 64],
        })
        .collect();

    assert_eq!(hash_len, 32, "only SHA-256 entries are built today");

    build_security_object(&groups).econtent.len()
}

// Doc 9303 allows sixteen data groups and requires two. The shipped buffer
// is 512 bytes, so the number of groups a document carries decides whether
// it can be proved at all.
#[test]
fn a_full_document_does_not_fit_the_512_byte_buffer() {
    assert!(econtent_len(2, 32) < 512, "the synthetic fixture fits");

    assert!(
        econtent_len(12, 32) < 512,
        "twelve groups still fit, which is why the shipped buffer is usable at all"
    );

    assert!(
        econtent_len(13, 32) > 512,
        "thirteen groups do not, so a document carrying them needs the larger variant"
    );

    assert!(
        econtent_len(16, 32) > 512,
        "a full document certainly does not"
    );
}

#[test]
fn a_full_document_fits_1024() {
    assert!(econtent_len(16, 32) < 1024);
}

#[test]
fn each_group_hash_is_the_digest_of_its_content() {
    let content = vec![0x42u8; 10];

    let groups = vec![DataGroup {
        number: 7,
        content: content.clone(),
    }];

    let sod = build_security_object(&groups);

    let (number, offset) = sod.dg_offsets[0];

    assert_eq!(number, 7);

    assert_eq!(&sod.econtent[offset + 7..offset + 39], &ec::sha256(&content)[..]);
}

#[test]
fn dg15_wraps_the_key_in_its_template() {
    let spki = vec![0x30, 0x03, 1, 2, 3];

    assert_eq!(build_dg15(&spki), vec![0x6f, 5, 0x30, 0x03, 1, 2, 3]);
}

#[test]
fn security_object_offsets_are_fixed_by_the_group_count() {
    let groups = vec![
        DataGroup {
            number: 1,
            content: build_dg1(MRZ_TD3),
        },
        DataGroup {
            number: 2,
            content: vec![0xaa; 64],
        },
    ];

    let sod = build_security_object(&groups);

    assert_eq!(sod.econtent.len(), 100);

    assert_eq!(sod.oid_offset, 7);

    assert_eq!(sod.dg_offsets, vec![(1u8, 22usize), (2u8, 61usize)]);
}

#[test]
fn each_group_hash_starts_39_bytes_after_the_one_before() {
    let groups: Vec<DataGroup> = (1..=14u8)
        .map(|n| DataGroup {
            number: n,
            content: vec![n; n as usize],
        })
        .collect();

    let sod = build_security_object(&groups);

    // 546 bytes of hashes need two length bytes, and so does the content.
    assert_eq!(sod.oid_offset, 9);

    assert_eq!(sod.dg_offsets[0].1, 26);

    for pair in sod.dg_offsets.windows(2) {
        assert_eq!(pair[1].1, pair[0].1 + 39);
    }
}

#[test]
fn the_message_digest_sits_at_byte_42() {
    let attrs = build_signed_attributes(b"any content at all");

    assert_eq!(attrs.bytes.len(), 74);

    assert_eq!(attrs.digest_offset, 42);

    assert_eq!(&attrs.bytes[42..], &ec::sha256(b"any content at all")[..]);
}
