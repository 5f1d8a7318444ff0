use zkicao::bundle::{
    accounts_for, array, bytes, commits_to_signer, sod_outputs, field_element_values, limbs, numeric, packed_country,
    parse_outputs, read_numeric, tree_path, tree_witness, value,
    OTHER_COUNTRIES, TODAY,
};

#[test]
fn reads_every_output_of_a_solved_circuit() {
    let line = "[pkg] Circuit output: (0x2bbe, 0x180f, 0x1d17)";

    assert_eq!(parse_outputs(line), vec!["0x2bbe", "0x180f", "0x1d17"]);
}

// A predicate only asserts, so it returns nothing and prints no output.
#[test]
fn accepts_a_circuit_that_returns_nothing() {
    assert!(parse_outputs("[pkg] Circuit witness successfully solved").is_empty());
}

#[test]
fn reads_a_single_output() {
    assert_eq!(parse_outputs("Circuit output: 0xabc"), vec!["0xabc"]);
}

// Integers print in decimal while field elements print in hex, and the
// opening tool returns both. A parser that looked only for hex dropped the
// length and shifted every value after it.
#[test]
fn reads_a_tuple_of_arrays_mixing_hex_and_decimal() {
    let line = "[pkg] Circuit output: ([0x012d, 0x00, 0x00, 0x00], 8, 0x0e99, [0x18a3, 0x0b26, 0x1ec3, 0x2aeb])";

    assert_eq!(
        parse_outputs(line),
        vec![
            "0x012d", "0x00", "0x00", "0x00", "8", "0x0e99", "0x18a3", "0x0b26", "0x1ec3",
            "0x2aeb"
        ]
    );
}

#[test]
fn output_it_cannot_account_for_is_recognised() {
    assert!(!accounts_for("something else entirely"));

    assert!(accounts_for("[pkg] Circuit output: 0x1"));

    assert!(accounts_for("[pkg] Circuit witness successfully solved"));
}

#[test]
fn reads_the_output_line_among_others() {
    let text = "[pkg] compiling\n[pkg] Circuit output: [1, 2]\r\n[pkg] Witness saved";

    assert_eq!(parse_outputs(text), vec!["1", "2"]);
}

#[test]
fn reads_hex_and_decimal_numbers_alike() {
    assert_eq!(numeric("0x1352715"), 20260629);

    assert_eq!(numeric("20260725"), 20260725);

    assert_eq!(numeric(TODAY), 20260725);

    assert_eq!(read_numeric("0x"), None);

    assert_eq!(read_numeric("twelve"), None);

    assert_eq!(read_numeric("18446744073709551616"), None);

    assert_eq!(read_numeric("+7"), Some(7));
}

#[test]
fn packs_a_country_code_big_endian() {
    assert_eq!(packed_country("UTO"), vec!["5592143", "0", "0", "0"]);

    assert_eq!(packed_country(OTHER_COUNTRIES[14]), vec!["4471868", "0", "0", "0"]);
}

#[test]
fn writes_the_witness_lines() {
    let mut out = String::new();

    bytes(&mut out, "b", &[1, 255], 3);

    value(&mut out, "v", "42");

    array(&mut out, "a", &["x".to_string(), "y".to_string()]);

    limbs(&mut out, "l", &[0, 340282366920938463463374607431768211455]);

    assert_eq!(
        out,
        "b = [\"1\", \"255\", \"0\", ]\nv = \"42\"\na = [\"x\", \"y\", ]\nl = [\"0\", \"340282366920938463463374607431768211455\", ]\n"
    );
}

#[test]
fn writes_field_elements_in_hex() {
    let mut data = vec![0u8; 64];

    data[31] = 0xab;

    data[32] = 0x01;

    let values = field_element_values(&data);

    assert_eq!(values.len(), 2);

    assert_eq!(values[0], format!("0x{}ab", "00".repeat(31)));

    assert_eq!(values[1], format!("0x01{}", "00".repeat(31)));
}

#[test]
fn pads_a_tree_to_sixteen_leaves() {
    let witness = tree_witness(&["a".to_string(), "b".to_string()], 1, 4);

    let mut expected = String::from("leaves = [\"a\", \"b\", ");

    for _ in 0..14 {
        expected.push_str("\"0\", ");
    }

    expected.push_str("]\nindex = \"1\"\ndepth = \"4\"\n");

    assert_eq!(witness, expected);

    let output: Vec<String> = (0..17).map(|i| i.to_string()).collect();

    let (root, siblings) = tree_path(&output, 4);

    assert_eq!(root, "0");

    assert_eq!(siblings, vec!["1", "2", "3", "4"]);
}

#[test]
fn finds_the_package_a_manifest_declares() {
    let manifest = "[package]\nname = \"sod_ecdsa\"\ntype = \"bin\"\n";

    assert!(zkicao::bundle::declares_package(manifest, "sod_ecdsa"));

    assert!(!zkicao::bundle::declares_package(manifest, "sod"));

    assert!(!zkicao::bundle::declares_package(manifest, "dg_extract"));
}

#[test]
fn places_a_leaf_among_the_others() {
    let mut leaves: Vec<String> = vec!["a".into(), "b".into(), "c".into()];

    zkicao::bundle::place_leaf(&mut leaves, 2, "own".into());

    assert_eq!(leaves, vec!["a", "b", "own", "c"]);

    assert_eq!(zkicao::bundle::SET_INDEX, 5);

    assert!(zkicao::bundle::REGISTRY_INDEX <= zkicao::bundle::REGISTRY_OTHERS);
}

#[test]
fn names_the_signature_circuit_outputs_in_order() {
    let outputs = parse_outputs("[pkg] Circuit output: (0x2bbe, 0x180f, 0x1d17)");

    let sod = sod_outputs(&outputs);

    assert_eq!(sod.econtent_binding, "0x2bbe");

    assert_eq!(sod.dsc_commitment, "0x180f");

    assert_eq!(sod.secret_binding, "0x1d17");

    assert!(commits_to_signer(&["0x180f".to_string(), "0x9".to_string()], &sod));

    assert!(!commits_to_signer(&["0x2bbe".to_string(), "0x180f".to_string()], &sod));

    assert!(!commits_to_signer(&[], &sod));
}
