use zkicao::groth16::{
    after_call, exhausted, message, text, Attempt, Circuit, Failure, Statement,
    PROVER_ERROR_SHORT_BUFFER, PROVER_INVALID_WITNESS_LENGTH, PROVER_OK,
};

fn c_text(s: &str, room: usize) -> Vec<i8> {
    let mut buffer: Vec<i8> = s.bytes().map(|b| b as i8).collect();

    buffer.resize(room, 0);

    buffer
}

#[test]
fn names_each_statement() {
    assert_eq!(Statement::Compare.name(), "compare");

    assert_eq!(Statement::Member.name(), "member");

    assert_eq!(Statement::Reveal.name(), "reveal");
}

#[test]
fn an_empty_graph_is_refused() {
    match Circuit::new(Statement::Member, Vec::new()) {
        Err(Failure::Graph(reason)) => assert_eq!(reason, "the graph for member is empty"),
        _ => panic!("an empty graph must be refused"),
    }

    let circuit = match Circuit::new(Statement::Compare, vec![1, 2, 3]) {
        Ok(circuit) => circuit,
        Err(_) => panic!("a graph with content is accepted"),
    };

    assert_eq!(circuit.statement(), Statement::Compare);

    assert_eq!(circuit.graph(), &[1, 2, 3]);
}

#[test]
fn failures_read_as_sentences() {
    assert_eq!(
        Failure::Unsatisfied("x".to_string()).message(),
        "the inputs do not satisfy the circuit: x"
    );

    assert_eq!(
        Failure::Graph("y".to_string()).message(),
        "cannot read the circuit graph: y"
    );

    assert_eq!(
        Failure::Malformed("z".to_string()).message(),
        "the inputs are malformed: z"
    );
}

#[test]
fn a_witness_failure_is_unsatisfied() {
    match Circuit::witness_outcome(Err("constraint".to_string())) {
        Err(Failure::Unsatisfied(reason)) => assert_eq!(reason, "constraint"),
        _ => panic!("a failed witness is an unsatisfied one"),
    }

    match Circuit::witness_outcome(Ok(vec![7])) {
        Ok(witness) => assert_eq!(witness, vec![7]),
        Err(_) => panic!("a solved witness passes through"),
    }
}

#[test]
fn reads_text_up_to_its_terminator() {
    assert_eq!(message(&c_text("hello", 16)), "hello");

    assert_eq!(message(&c_text("full", 4)), "full");

    assert_eq!(text(&c_text("{\"pi_a\":1}", 64), 64), "{\"pi_a\":1}");

    assert_eq!(text(&c_text("abcdef", 8), 3), "abc");

    assert_eq!(message(&[0xff_u8 as i8, 0x41, 0]), "\u{fffd}A");
}

#[test]
fn decides_what_a_prover_call_leads_to() {
    let proof = c_text("{\"proof\":true}", 32);

    let signals = c_text("[\"1\"]", 32);

    let error = c_text("bad zkey", 32);

    match after_call(0, PROVER_OK, &proof, 32, &signals, 32, &error) {
        Attempt::Proved(p) => {
            assert_eq!(p.proof, "{\"proof\":true}");

            assert_eq!(p.public_signals, "[\"1\"]");
        }
        _ => panic!("a zero code is a proof"),
    }

    match after_call(0, PROVER_ERROR_SHORT_BUFFER, &proof, 9000, &signals, 100, &error) {
        Attempt::Grow {
            proof_size,
            public_size,
        } => assert_eq!((proof_size, public_size), (9000, 100)),
        _ => panic!("a short buffer is grown once"),
    }

    match after_call(1, PROVER_ERROR_SHORT_BUFFER, &proof, 9000, &signals, 100, &error) {
        Attempt::Refused(Failure::Unsatisfied(reason)) => assert_eq!(reason, "bad zkey"),
        _ => panic!("a second short buffer is a failure"),
    }

    match after_call(0, PROVER_INVALID_WITNESS_LENGTH, &proof, 32, &signals, 32, &error) {
        Attempt::Refused(Failure::Unsatisfied(reason)) => {
            assert!(reason.ends_with("so it was produced for another circuit"))
        }
        _ => panic!("a witness of the wrong length is refused"),
    }

    match exhausted() {
        Failure::Unsatisfied(reason) => {
            assert_eq!(reason, "rapidsnark asked for a larger buffer twice")
        }
        _ => panic!("running out of attempts is unsatisfied"),
    }
}

#[test]
fn the_witness_request_is_the_inputs_as_json() {
    let circuit = match Circuit::new(Statement::Reveal, vec![1]) {
        Ok(circuit) => circuit,
        Err(_) => panic!("a graph with content is accepted"),
    };

    let mut inputs = zkicao::groth16::Inputs::new();

    inputs.insert(
        "domain".to_string(),
        serde_json::Value::String("42".to_string()),
    );

    match circuit.witness_request(&inputs) {
        Ok(json) => assert_eq!(json, "{\"domain\":\"42\"}"),
        Err(_) => panic!("string inputs always serialise"),
    }
}

#[test]
fn a_serialiser_failure_is_malformed_input() {
    match Circuit::request_outcome(Err("key must be a string".to_string())) {
        Err(Failure::Malformed(reason)) => assert_eq!(reason, "key must be a string"),
        _ => panic!("a failed serialisation is malformed input"),
    }

    match Circuit::request_outcome(Ok("{\"a\":\"1\"}".to_string())) {
        Ok(json) => assert_eq!(json, "{\"a\":\"1\"}"),
        Err(_) => panic!("serialised inputs pass through"),
    }
}

#[test]
fn any_json_inputs_make_a_request() {
    let circuit = match Circuit::new(Statement::Compare, vec![7, 7]) {
        Ok(circuit) => circuit,
        Err(_) => panic!("a graph with content is accepted"),
    };

    let mut inputs = zkicao::groth16::Inputs::new();

    let mut nested = serde_json::Map::new();
    nested.insert("x".to_string(), serde_json::Value::Bool(true));
    inputs.insert(
        "bounds".to_string(),
        serde_json::Value::Array(vec![
            serde_json::Value::from(3u64),
            serde_json::Value::Null,
            serde_json::Value::Object(nested),
        ]),
    );

    match circuit.witness_request(&inputs) {
        Ok(json) => assert_eq!(json, "{\"bounds\":[3,null,{\"x\":true}]}"),
        Err(_) => panic!("JSON values keyed by strings always serialise"),
    }
}

#[test]
fn every_key_is_written_as_an_escaped_member_name() {
    let circuit = match Circuit::new(Statement::Member, vec![1]) {
        Ok(circuit) => circuit,
        Err(_) => panic!("a graph with content is accepted"),
    };

    let mut inputs = zkicao::groth16::Inputs::new();

    inputs.insert("a\"b\\c\n\u{1}".to_string(), serde_json::Value::from(1u64));

    inputs.insert("root".to_string(), serde_json::Value::String("7".to_string()));

    match circuit.witness_request(&inputs) {
        Ok(json) => {
            assert!(json.starts_with('{'));

            assert!(json.ends_with('}'));

            assert!(json.contains("\"a\\\"b\\\\c\\n\\u0001\":"));

            assert!(json.contains("\"root\":"));
        }
        Err(_) => panic!("JSON values keyed by strings always serialise"),
    }
}
