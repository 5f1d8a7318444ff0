use zkicao::ec::{p256, KeyPair, Signature};
use zkicao::fixture::{
    chip_challenge, document_material, material_matches, emit_bytes, emit_chip_key, emit_document, emit_limbs,
    emit_u32, prover_toml, specimen_documents, toml_bytes, toml_value,
};
use zkicao::icao::{build_dg1, MRZ_TD1, MRZ_TD3};

fn key() -> KeyPair {
    KeyPair {
        pem_path: std::path::PathBuf::from("k.pem"),
        public_x: vec![0x11; 32],
        public_y: vec![0x22; 32],
        curve: p256(),
    }
}

fn signature() -> Signature {
    Signature {
        r: vec![0x33; 32],
        s: vec![0x44; 32],
    }
}

#[test]
fn writes_a_byte_array_sixteen_to_a_line() {
    let mut body = String::new();

    emit_bytes(&mut body, "X", &[0xab; 17], 18);

    let mut expected = String::from("pub global X: [u8; 18] = [\n    ");

    for _ in 0..16 {
        expected.push_str("0xab, ");
    }

    expected.push_str("\n    0xab, 0x00, \n];\n\n");

    assert_eq!(body, expected);
}

#[test]
fn writes_numbers_and_limbs() {
    let mut body = String::new();

    emit_u32(&mut body, "N", 512);

    emit_limbs(&mut body, "L", &[1, 2]);

    assert_eq!(
        body,
        "pub global N: u32 = 512;\n\npub global L: [u128; 2] = [\n    1,\n    2,\n];\n\n"
    );
}

#[test]
fn writes_witness_entries() {
    let mut toml = String::new();

    toml_bytes(&mut toml, "b", &[9, 8, 7], 2);

    toml_value(&mut toml, "n", 42);

    assert_eq!(toml, "b = [\"9\", \"8\", ]\nn = \"42\"\n");
}

#[test]
fn the_specimens_have_their_lengths() {
    for document in specimen_documents() {
        assert_eq!(document.mrz.len(), document.mrz_len);
    }
}

#[test]
fn a_document_carries_its_signed_material() {
    let material = document_material(MRZ_TD3);

    assert_eq!(material.dg1, build_dg1(MRZ_TD3));

    assert_eq!(material.groups.len(), 2);

    assert_eq!(material.groups[1].content, vec![0x5a; 96]);

    assert_eq!(material.security_object.dg_offsets.len(), 2);

    let documents = specimen_documents();

    let mut body = String::new();

    emit_document(&mut body, &documents[0], &key(), &material, &signature());

    assert!(body.starts_with(
        "// TD3 document, signed with a generated P-256 Document Signer key.\npub global TD3_MRZ: [u8; 88] = ["
    ));

    assert!(body.contains("pub global TD3_DG1_OFFSET: u32 = "));

    assert!(body.contains("pub global TD3_DG2_OFFSET: u32 = "));

    assert!(body.contains(&format!(
        "pub global TD3_ECONTENT_LEN: u32 = {};\n\n",
        material.security_object.econtent.len()
    )));

    assert!(body.ends_with("0x44, \n];\n\n\n"));
}

#[test]
fn the_prover_witness_takes_the_fixed_salts() {
    let material = document_material(MRZ_TD3);

    let toml = prover_toml(&key(), &material, &signature());

    assert!(toml.starts_with("econtent = [\""));

    assert!(toml.ends_with("dsc_salt = \"7\"\ndomain = \"42\"\ncontext = \"99\"\n"));
}

#[test]
fn the_chip_answers_a_challenge_of_the_context() {
    let challenge = chip_challenge();

    assert_eq!(challenge.len(), 32);

    assert_eq!(challenge[31], 99);

    assert!(challenge[..31].iter().all(|b| *b == 0));

    let mut body = String::new();

    emit_chip_key(&mut body, &key(), &signature());

    assert!(body.contains("pub global DG15_LEN: u32 = 93;\n\n"));

    assert!(body.contains("pub global DG15_KEY_OFFSET: u32 = 25;\n\n"));
}

#[test]
fn material_is_recognised_as_its_zone_and_no_other() {
    let material = document_material(MRZ_TD3);

    assert_eq!(material.security_object.oid_offset, 7);

    assert_eq!(material.security_object.dg_offsets, vec![(1u8, 22usize), (2u8, 61usize)]);

    assert_eq!(material.signed_attrs.digest_offset, 42);

    assert!(material_matches(MRZ_TD3, &material));

    assert!(!material_matches(MRZ_TD1, &material));

    let mut moved = document_material(MRZ_TD3);
    moved.security_object.oid_offset = 0;

    assert!(!material_matches(MRZ_TD3, &moved));

    let mut resigned = document_material(MRZ_TD3);
    resigned.signed_attrs.bytes[50] ^= 1;

    assert!(!material_matches(MRZ_TD3, &resigned));
}
