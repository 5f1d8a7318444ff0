use zkicao::manifest::json;
use zkicao::manifest::{
    is_tool, manifest_line, package_field, public_inputs, workspace_members, MANIFEST_HEADER,
};

const SAMPLE: &str = r#"{"abi":{"parameters":[{"name":"econtent","type":{"kind":"array","length":512,"type":{"kind":"integer"}},"visibility":"private"},{"name":"domain","type":{"kind":"field"},"visibility":"public"},{"name":"context","type":{"kind":"field"},"visibility":"public"}],"return_type":{"abi_type":{"kind":"tuple","fields":[{"kind":"field"},{"kind":"field"}]},"visibility":"public"}}}"#;

#[test]
fn reads_a_nested_section() {
    let abi = json::section(SAMPLE, "\"abi\":").unwrap();

    assert!(abi.starts_with('{'));

    assert!(abi.contains("parameters"));
}

#[test]
fn reads_only_fields_of_the_object_itself() {
    let abi = json::section(SAMPLE, "\"abi\":").unwrap();

    let parameters = json::field(&abi, "parameters").unwrap();

    assert_eq!(json::array_items(&parameters).len(), 3);
}

#[test]
fn counts_slots_for_every_shape() {
    assert_eq!(json::slot_count(r#"{"kind":"field"}"#), 1);

    assert_eq!(
        json::slot_count(r#"{"kind":"array","length":4,"type":{"kind":"field"}}"#),
        4
    );

    assert_eq!(
        json::slot_count(r#"{"kind":"tuple","fields":[{"kind":"field"},{"kind":"field"}]}"#),
        2
    );
}

// predicate_compare and its siblings only assert, so their ABI records a
// null return. Treating that as a value shape panicked.
#[test]
fn a_null_return_type_is_read_as_no_return() {
    let assert_only = r#"{"abi":{"parameters":[{"name":"domain","type":{"kind":"field"},"visibility":"public"}],"return_type":null}}"#;

    let abi = json::section(assert_only, "\"abi\":").unwrap();

    assert_eq!(json::field(&abi, "return_type").unwrap().trim(), "null");
}

#[test]
fn an_array_of_arrays_counts_every_element() {
    let nested = r#"{"kind":"array","length":2,"type":{"kind":"array","length":3,"type":{"kind":"field"}}}"#;

    assert_eq!(json::slot_count(nested), 6);
}

#[test]
fn lays_out_public_parameters_then_return_values() {
    assert_eq!(
        public_inputs(SAMPLE).unwrap(),
        "domain context return[0] return[1]"
    );

    let assert_only = r#"{"abi":{"parameters":[{"name":"domain","type":{"kind":"field"},"visibility":"public"}],"return_type":null}}"#;

    assert_eq!(public_inputs(assert_only).unwrap(), "domain");

    let wide = r#"{"abi":{"parameters":[{"name":"root","type":{"kind":"array","length":2,"type":{"kind":"field"}},"visibility":"public"}],"return_type":null}}"#;

    assert_eq!(public_inputs(wide).unwrap(), "root[0] root[1]");
}

#[test]
fn refuses_an_output_without_an_abi() {
    assert_eq!(public_inputs("{}"), None);

    let unknown = r#"{"abi":{"parameters":[{"name":"x","type":{"kind":"mystery"},"visibility":"public"}],"return_type":null}}"#;

    assert_eq!(public_inputs(unknown), None);
}

#[test]
fn counts_struct_fields_by_their_types() {
    let shape = r#"{"kind":"struct","path":"P","fields":[{"name":"a","type":{"kind":"field"}},{"name":"b","type":{"kind":"array","length":3,"type":{"kind":"boolean"}}}]}"#;

    assert_eq!(json::slot_count(shape), 4);
}

#[test]
fn reads_strings_and_scalars() {
    let object = r#"{"name": "domain" , "length": 12, "inner": {"name": "hidden"}}"#;

    assert_eq!(json::string(object, "name").as_deref(), Some("domain"));

    assert_eq!(json::field(object, "length").as_deref(), Some("12"));

    assert_eq!(json::string(object, "missing"), None);

    assert_eq!(json::balanced("  [1, [2], 3] tail").as_deref(), Some("[1, [2], 3]"));

    assert_eq!(json::balanced("  {\"a\": 1"), None);
}

#[test]
fn reads_the_workspace_members() {
    let text = "[workspace]\nmembers = [\n    \"bin/a\",\n    \"lib/b\",\n    \"\",\n]\n";

    assert_eq!(workspace_members(text), vec!["bin/a", "lib/b"]);
}

#[test]
fn reads_a_package_field() {
    let text = "[package]\nname = \"sod\"\ntype = \"bin\"\n";

    assert_eq!(package_field(text, "type").as_deref(), Some("bin"));

    assert_eq!(package_field(text, "name").as_deref(), Some("sod"));

    assert_eq!(package_field(text, "authors"), None);
}

#[test]
fn knows_the_witness_tools() {
    assert!(is_tool("mrz_opening"));

    assert!(!is_tool("sod"));

    assert_eq!(manifest_line("sod", "domain context"), "sod domain context\n");

    assert!(MANIFEST_HEADER.ends_with("public inputs.\n"));
}

#[test]
fn a_string_takes_one_element_per_character() {
    assert_eq!(json::slot_count(r#"{"kind":"string","length":5}"#), 5);

    assert_eq!(
        json::slot_count(r#"{"kind":"array","length":2,"type":{"kind":"string","length":3}}"#),
        6
    );

    let shape = r#"{"kind":"struct","fields":[{"name":"tag","type":{"kind":"string","length":4}},{"name":"n","type":{"kind":"field"}}]}"#;

    assert_eq!(json::slot_count(shape), 5);

    let abi = r#"{"abi":{"parameters":[{"name":"tag","type":{"kind":"string","length":3},"visibility":"public"}],"return_type":null}}"#;

    assert_eq!(public_inputs(abi).unwrap(), "tag[0] tag[1] tag[2]");
}
